//! The statement/expression type checker: a single recursive pass over one
//! statement at a time, against the current registry and resolver. Every
//! expression's result is pinned to a specification-level checking function,
//! so checking is deterministic by construction; registrations performed by
//! a statement are atomic.

use vstd::prelude::*;
use crate::ast;
use crate::ast::BinaryOperator;
use crate::error::{TypeCheckError, TypeCheckErrorKind};
use crate::rational::Rational;
use crate::registry::{
    combine, scale, seq_wf, spec_combine_seq, spec_scale_seq, BaseRepresentation, CombineOp,
    Registry,
};
use crate::resolver::{Binding, FunctionSignature, Resolver};
use crate::span::Span;
use crate::typed_ast;

verus! {

broadcast use vstd::std_specs::vec::group_vec_axioms;

/// The outcome of constant-folding an exponent expression.
#[derive(Debug, Clone, Copy, PartialEq, Eq, Structural)]
pub enum ConstEval {
    /// A compile-time-constant rational.
    Value(Rational),
    /// Not an expression over literals alone.
    NonConstant,
    /// The folded value left the machine range.
    Overflow,
}

/// Whether every numeric literal in an expression is a canonical rational:
/// the validity condition on input syntax trees.
pub open spec fn expr_wf(e: ast::Expression) -> bool
    decreases e,
{
    match e {
        ast::Expression::Scalar(_, n) => n.wf(),
        ast::Expression::Identifier(_, _) => true,
        ast::Expression::Negate(_, inner) => expr_wf(*inner),
        ast::Expression::BinaryOperator(_, _, lhs, rhs) => expr_wf(*lhs) && expr_wf(*rhs),
        ast::Expression::FunctionCall(_, _, args) => all_args_wf(args, 0),
    }
}

pub open spec fn all_args_wf(args: Vec<ast::Expression>, i: int) -> bool
    decreases args, args@.len() - i,
{
    if i < 0 || i >= args@.len() {
        true
    } else {
        expr_wf(args@[i]) && all_args_wf(args, i + 1)
    }
}

/// Constant-fold an exponent at the specification level: literals,
/// negation, and the four arithmetic operators over them. Anything else is
/// not a compile-time constant.
pub open spec fn spec_const_eval(e: ast::Expression) -> ConstEval
    decreases e,
{
    match e {
        ast::Expression::Scalar(_, n) => ConstEval::Value(n),
        ast::Expression::Negate(_, inner) => match spec_const_eval(*inner) {
            ConstEval::Value(v) => ConstEval::Value(v.spec_neg()),
            other => other,
        },
        ast::Expression::BinaryOperator(_, op, lhs, rhs) => match spec_const_eval(*lhs) {
            ConstEval::Value(a) => match spec_const_eval(*rhs) {
                ConstEval::Value(b) => match op {
                    BinaryOperator::Add => match a.spec_add(b) {
                        Some(v) => ConstEval::Value(v),
                        None => ConstEval::Overflow,
                    },
                    BinaryOperator::Sub => match a.spec_sub(b) {
                        Some(v) => ConstEval::Value(v),
                        None => ConstEval::Overflow,
                    },
                    BinaryOperator::Mul => match a.spec_mul(b) {
                        Some(v) => ConstEval::Value(v),
                        None => ConstEval::Overflow,
                    },
                    BinaryOperator::Div => if b.num == 0 {
                        ConstEval::NonConstant
                    } else {
                        match a.spec_div(b) {
                            Some(v) => ConstEval::Value(v),
                            None => ConstEval::Overflow,
                        }
                    },
                    BinaryOperator::Power => ConstEval::NonConstant,
                },
                other => other,
            },
            other => other,
        },
        _ => ConstEval::NonConstant,
    }
}

/// Constant-fold an exponent expression.
pub fn const_eval(e: &ast::Expression) -> (r: ConstEval)
    requires
        expr_wf(*e),
    ensures
        r == spec_const_eval(*e),
        r matches ConstEval::Value(v) ==> v.wf(),
    decreases *e,
{
    match e {
        ast::Expression::Scalar(_, n) => ConstEval::Value(*n),
        ast::Expression::Negate(_, inner) => match const_eval(inner) {
            ConstEval::Value(v) => ConstEval::Value(v.neg()),
            other => other,
        },
        ast::Expression::BinaryOperator(_, op, lhs, rhs) => match const_eval(lhs) {
            ConstEval::Value(a) => match const_eval(rhs) {
                ConstEval::Value(b) => match op {
                    BinaryOperator::Add => match a.add(&b) {
                        Some(v) => {
                            proof {
                                assert(a.den * b.den != 0) by (nonlinear_arith)
                                    requires
                                        a.den > 0,
                                        b.den > 0,
                                ;
                                crate::rational::lemma_reduce_props(
                                    a.num * b.den + b.num * a.den,
                                    a.den * b.den,
                                );
                            }
                            ConstEval::Value(v)
                        },
                        None => ConstEval::Overflow,
                    },
                    BinaryOperator::Sub => match a.sub(&b) {
                        Some(v) => {
                            proof {
                                assert(a.den * b.den != 0) by (nonlinear_arith)
                                    requires
                                        a.den > 0,
                                        b.den > 0,
                                ;
                                crate::rational::lemma_reduce_props(
                                    a.num * b.den - b.num * a.den,
                                    a.den * b.den,
                                );
                            }
                            ConstEval::Value(v)
                        },
                        None => ConstEval::Overflow,
                    },
                    BinaryOperator::Mul => match a.mul(&b) {
                        Some(v) => {
                            proof {
                                assert(a.den * b.den != 0) by (nonlinear_arith)
                                    requires
                                        a.den > 0,
                                        b.den > 0,
                                ;
                                crate::rational::lemma_reduce_props(a.num * b.num, a.den * b.den);
                            }
                            ConstEval::Value(v)
                        },
                        None => ConstEval::Overflow,
                    },
                    BinaryOperator::Div => {
                        if b.num == 0 {
                            ConstEval::NonConstant
                        } else {
                            match a.div(&b) {
                                Some(v) => {
                                    proof {
                                        assert(a.den * b.num != 0) by (nonlinear_arith)
                                            requires
                                                a.den > 0,
                                                b.num != 0,
                                        ;
                                        crate::rational::lemma_reduce_props(
                                            a.num * b.den,
                                            a.den * b.num,
                                        );
                                    }
                                    ConstEval::Value(v)
                                },
                                None => ConstEval::Overflow,
                            }
                        }
                    },
                    BinaryOperator::Power => ConstEval::NonConstant,
                },
                other => other,
            },
            other => other,
        },
        _ => ConstEval::NonConstant,
    }
}

/// The specification-level outcome of type-checking an expression: either
/// its canonical dimension type, or which error it is rejected with.
pub enum SpecCheck {
    /// Well-typed, with this canonical exponent vector.
    Typed(Seq<(u64, Rational)>),
    /// Two dimension types had to match and did not; the third component is
    /// the operator at which they met, the fourth the one-based argument
    /// position when the mismatch is at a call.
    Incompatible(Seq<(u64, Rational)>, Seq<(u64, Rational)>, Option<BinaryOperator>, Option<int>),
    /// An unbound (or wrongly bound) name.
    Undefined(Seq<char>),
    /// An exponent that is not a compile-time constant.
    NonConstant,
    /// A call with the wrong number of arguments: expected, found.
    Arity(int, int),
    /// An exponent left the machine range.
    Overflow,
    /// A call of the function whose return type is being inferred.
    Recursive(Seq<char>),
    /// An error that expression checking never produces.
    Other,
}

/// The specification-level type checker for expressions. `cur` is the name
/// of the function whose body is being checked for return-type inference,
/// if any: a call of it is rejected rather than recursed into.
pub open spec fn spec_check_expr(r: Resolver, cur: Option<Seq<char>>, e: ast::Expression) -> SpecCheck
    decreases e, 0int,
{
    match e {
        ast::Expression::Scalar(_, _) => SpecCheck::Typed(Seq::empty()),
        ast::Expression::Identifier(_, name) => match r.spec_resolve(name@) {
            Some(Binding::Variable(t)) => SpecCheck::Typed(t.factors@),
            Some(Binding::Unit(t)) => SpecCheck::Typed(t.factors@),
            _ => SpecCheck::Undefined(name@),
        },
        ast::Expression::Negate(_, inner) => spec_check_expr(r, cur, *inner),
        ast::Expression::BinaryOperator(_, op, lhs, rhs) => match spec_check_expr(r, cur, *lhs) {
            SpecCheck::Typed(lt) => match op {
                BinaryOperator::Power => match spec_const_eval(*rhs) {
                    ConstEval::Value(v) => match spec_scale_seq(lt, v) {
                        Some(s) => SpecCheck::Typed(s),
                        None => SpecCheck::Overflow,
                    },
                    ConstEval::NonConstant => SpecCheck::NonConstant,
                    ConstEval::Overflow => SpecCheck::Overflow,
                },
                _ => match spec_check_expr(r, cur, *rhs) {
                    SpecCheck::Typed(rt) => match op {
                        BinaryOperator::Add => if lt == rt {
                            SpecCheck::Typed(lt)
                        } else {
                            SpecCheck::Incompatible(lt, rt, Some(BinaryOperator::Add), None)
                        },
                        BinaryOperator::Sub => if lt == rt {
                            SpecCheck::Typed(lt)
                        } else {
                            SpecCheck::Incompatible(lt, rt, Some(BinaryOperator::Sub), None)
                        },
                        BinaryOperator::Mul => match spec_combine_seq(lt, rt, CombineOp::Multiply) {
                            Some(s) => SpecCheck::Typed(s),
                            None => SpecCheck::Overflow,
                        },
                        BinaryOperator::Div => match spec_combine_seq(lt, rt, CombineOp::Divide) {
                            Some(s) => SpecCheck::Typed(s),
                            None => SpecCheck::Overflow,
                        },
                        BinaryOperator::Power => SpecCheck::Other,
                    },
                    other => other,
                },
            },
            other => other,
        },
        ast::Expression::FunctionCall(_, name, args) => {
            if cur == Some(name@) {
                SpecCheck::Recursive(name@)
            } else {
                match r.spec_resolve(name@) {
                    Some(Binding::Function(sig)) => {
                        if args@.len() != sig.parameters@.len() {
                            SpecCheck::Arity(sig.parameters@.len() as int, args@.len() as int)
                        } else {
                            spec_check_args(r, cur, sig, args, 0)
                        }
                    },
                    _ => SpecCheck::Undefined(name@),
                }
            }
        },
    }
}

/// Check a call's arguments from position `i` on: the first failure wins;
/// an argument whose type differs from its parameter's is an
/// incompatibility at that (one-based) argument position.
pub open spec fn spec_check_args(
    r: Resolver,
    cur: Option<Seq<char>>,
    sig: FunctionSignature,
    args: Vec<ast::Expression>,
    i: int,
) -> SpecCheck
    decreases args, args@.len() - i, 1int,
{
    if i < 0 || i >= args@.len() {
        SpecCheck::Typed(sig.return_type.factors@)
    } else {
        match spec_check_expr(r, cur, args@[i]) {
            SpecCheck::Typed(t) => if t == sig.parameters@[i].1.factors@ {
                spec_check_args(r, cur, sig, args, i + 1)
            } else {
                SpecCheck::Incompatible(sig.parameters@[i].1.factors@, t, None, Some(i + 1))
            },
            other => other,
        }
    }
}

/// The specification-level view of an exec checking result.
pub open spec fn res_model(r: Result<typed_ast::Expression, TypeCheckError>) -> SpecCheck {
    match r {
        Ok(te) => SpecCheck::Typed(te.spec_type_factors()),
        Err(err) => match err.kind {
            TypeCheckErrorKind::UndefinedIdentifier(n) => SpecCheck::Undefined(n@),
            TypeCheckErrorKind::IncompatibleDimensions { expected, found, operation, argument } => SpecCheck::Incompatible(
                expected.factors@,
                found.factors@,
                operation,
                match argument {
                    Some(i) => Some(i as int),
                    None => None,
                },
            ),
            TypeCheckErrorKind::UnsupportedExponent => SpecCheck::NonConstant,
            TypeCheckErrorKind::ArityError { callee, expected_count, found_count } => SpecCheck::Arity(
                expected_count as int,
                found_count as int,
            ),
            TypeCheckErrorKind::ExponentOverflow => SpecCheck::Overflow,
            TypeCheckErrorKind::RecursiveInference(n) => SpecCheck::Recursive(n@),
            _ => SpecCheck::Other,
        },
    }
}

/// The specification-level view of the optional current-function name.
pub open spec fn cur_model(c: Option<&String>) -> Option<Seq<char>> {
    match c {
        Some(s) => Some(s@),
        None => None,
    }
}

/// Type-check one expression against the bindings in scope. Pure: the
/// result is a function of the resolver state and the expression alone, so
/// re-checking the same expression in the same state yields the same type.
#[verifier::loop_isolation(false)]
pub fn check_expression(
    res: &Resolver,
    current: Option<&String>,
    e: &ast::Expression,
) -> (r: Result<typed_ast::Expression, TypeCheckError>)
    requires
        res.wf(),
        expr_wf(*e),
    ensures
        res_model(r) == spec_check_expr(*res, cur_model(current), *e),
        r is Ok ==> seq_wf(r->Ok_0.spec_type_factors()),
        r matches Err(err) ==> !(err.kind matches TypeCheckErrorKind::ReturnTypeMismatch { .. })
            && !(err.kind matches TypeCheckErrorKind::Redeclaration(_)) && err.kind
            != TypeCheckErrorKind::DuplicateDimension && err.kind
            != TypeCheckErrorKind::InvalidDimensionExpression,
    decreases *e,
{
    match e {
        ast::Expression::Scalar(_, n) => {
            proof {
                assert(seq_wf(Seq::<(u64, Rational)>::empty()));
            }
            Ok(typed_ast::Expression::Scalar(*n))
        },
        ast::Expression::Identifier(span, name) => match res.resolve(name.as_str()) {
            Some(Binding::Variable(t)) => {
                let ty = t.duplicate();
                Ok(typed_ast::Expression::Identifier(name.clone(), ty))
            },
            Some(Binding::Unit(t)) => {
                let ty = t.duplicate();
                Ok(typed_ast::Expression::Identifier(name.clone(), ty))
            },
            _ => Err(
                TypeCheckError {
                    kind: TypeCheckErrorKind::UndefinedIdentifier(name.clone()),
                    span: *span,
                },
            ),
        },
        ast::Expression::Negate(_, inner) => match check_expression(res, current, inner) {
            Ok(te) => {
                let ty = te.get_type();
                Ok(typed_ast::Expression::Negate(Box::new(te), ty))
            },
            Err(err) => Err(err),
        },
        ast::Expression::BinaryOperator(span, op, lhs, rhs) => {
            let tl = match check_expression(res, current, lhs) {
                Ok(te) => te,
                Err(err) => {
                    return Err(err);
                },
            };
            let lt = tl.get_type();
            if matches!(op, BinaryOperator::Power) {
                match const_eval(rhs) {
                    ConstEval::Value(v) => match scale(&lt, &v) {
                        Some(st) => {
                            let trhs = typed_ast::Expression::Scalar(v);
                            Ok(
                                typed_ast::Expression::BinaryOperator(
                                    *op,
                                    Box::new(tl),
                                    Box::new(trhs),
                                    st,
                                ),
                            )
                        },
                        None => Err(
                            TypeCheckError {
                                kind: TypeCheckErrorKind::ExponentOverflow,
                                span: *span,
                            },
                        ),
                    },
                    ConstEval::NonConstant => Err(
                        TypeCheckError { kind: TypeCheckErrorKind::UnsupportedExponent, span: *span },
                    ),
                    ConstEval::Overflow => Err(
                        TypeCheckError { kind: TypeCheckErrorKind::ExponentOverflow, span: *span },
                    ),
                }
            } else {
                let tr = match check_expression(res, current, rhs) {
                    Ok(te) => te,
                    Err(err) => {
                        return Err(err);
                    },
                };
                let rt = tr.get_type();
                match op {
                    BinaryOperator::Add | BinaryOperator::Sub => {
                        if lt.same_as(&rt) {
                            Ok(
                                typed_ast::Expression::BinaryOperator(
                                    *op,
                                    Box::new(tl),
                                    Box::new(tr),
                                    lt,
                                ),
                            )
                        } else {
                            Err(
                                TypeCheckError {
                                    kind: TypeCheckErrorKind::IncompatibleDimensions {
                                        expected: lt,
                                        found: rt,
                                        operation: Some(*op),
                                        argument: None,
                                    },
                                    span: *span,
                                },
                            )
                        }
                    },
                    BinaryOperator::Mul | BinaryOperator::Div => {
                        let cop = if matches!(op, BinaryOperator::Mul) {
                            CombineOp::Multiply
                        } else {
                            CombineOp::Divide
                        };
                        match combine(&lt, &rt, cop) {
                            Some(ct) => Ok(
                                typed_ast::Expression::BinaryOperator(
                                    *op,
                                    Box::new(tl),
                                    Box::new(tr),
                                    ct,
                                ),
                            ),
                            None => Err(
                                TypeCheckError {
                                    kind: TypeCheckErrorKind::ExponentOverflow,
                                    span: *span,
                                },
                            ),
                        }
                    },
                    BinaryOperator::Power => {
                        proof {
                            assert(false);
                        }
                        Err(
                            TypeCheckError {
                                kind: TypeCheckErrorKind::UnsupportedExponent,
                                span: *span,
                            },
                        )
                    },
                }
            }
        },
        ast::Expression::FunctionCall(span, name, args) => {
            let is_current = match current {
                Some(c) => str_eq(name.as_str(), c.as_str()),
                None => false,
            };
            if is_current {
                return Err(
                    TypeCheckError {
                        kind: TypeCheckErrorKind::RecursiveInference(name.clone()),
                        span: *span,
                    },
                );
            }
            let sig = match res.resolve(name.as_str()) {
                Some(Binding::Function(sig)) => sig,
                _ => {
                    return Err(
                        TypeCheckError {
                            kind: TypeCheckErrorKind::UndefinedIdentifier(name.clone()),
                            span: *span,
                        },
                    );
                },
            };
            let n = args.len();
            if n != sig.parameters.len() {
                return Err(
                    TypeCheckError {
                        kind: TypeCheckErrorKind::ArityError {
                            callee: name.clone(),
                            expected_count: sig.parameters.len(),
                            found_count: n,
                        },
                        span: *span,
                    },
                );
            }
            let mut typed_args: Vec<typed_ast::Expression> = Vec::new();
            let mut i: usize = 0;
            while i < n
                invariant
                    0 <= i <= n,
                    n == args@.len(),
                    n == sig.parameters@.len(),
                    res.wf(),
                    all_args_wf(*args, 0),
                    res.spec_resolve(name@) == Some(Binding::Function(*sig)),
                    cur_model(current) != Some(name@),
                    sig.wf_sig(),
                    spec_check_args(*res, cur_model(current), *sig, *args, 0) == spec_check_args(
                        *res,
                        cur_model(current),
                        *sig,
                        *args,
                        i as int,
                    ),
                decreases n - i,
            {
                proof {
                    lemma_args_wf_at(*args, 0, i as int);
                    assert(decreases_to!(*e => *args));
                    assert(decreases_to!(*args => args@[i as int]));
                }
                let ta = match check_expression(res, current, &args[i]) {
                    Ok(te) => te,
                    Err(err) => {
                        proof {
                            let rr = Result::<typed_ast::Expression, TypeCheckError>::Err(err);
                            assert(!(res_model(rr) is Typed));
                            assert(spec_check_args(
                                *res,
                                cur_model(current),
                                *sig,
                                *args,
                                i as int,
                            ) == res_model(rr));
                        }
                        return Err(err);
                    },
                };
                let at = ta.get_type();
                let pt = &sig.parameters[i].1;
                if !at.same_as(pt) {
                    let expected = pt.duplicate();
                    return Err(
                        TypeCheckError {
                            kind: TypeCheckErrorKind::IncompatibleDimensions {
                                expected,
                                found: at,
                                operation: None,
                                argument: Some(i + 1),
                            },
                            span: *span,
                        },
                    );
                }
                typed_args.push(ta);
                i += 1;
            }
            let ret = sig.return_type.duplicate();
            Ok(typed_ast::Expression::FunctionCall(name.clone(), typed_args, ret))
        },
    }
}

/// Every argument from position `a` on is well-formed when all are from
/// position `b <= a` on.
proof fn lemma_args_wf_at(args: Vec<ast::Expression>, b: int, a: int)
    requires
        all_args_wf(args, b),
        0 <= b <= a,
    ensures
        a < args@.len() ==> expr_wf(args@[a]),
        all_args_wf(args, a),
    decreases a - b,
{
    if b < a && b < args@.len() {
        lemma_args_wf_at(args, b + 1, a);
    } else if b >= args@.len() {
        lemma_args_wf_all_out(args, b, a);
    }
}

proof fn lemma_args_wf_all_out(args: Vec<ast::Expression>, b: int, a: int)
    requires
        0 <= b <= a,
        b >= args@.len(),
    ensures
        all_args_wf(args, a),
    decreases a - b,
{
    if b < a {
        lemma_args_wf_all_out(args, b + 1, a);
    }
}

/// String equality, decided through the character views.
pub fn str_eq(a: &str, b: &str) -> (r: bool)
    ensures
        r == (a@ == b@),
{
    let sa: String = a.to_owned();
    let sb: String = b.to_owned();
    sa == sb
}


/// Law: type checking is deterministic. The result of checking an
/// expression is a function of the resolver state and the expression alone,
/// so two results of the same check are identical — in particular, the
/// types of two checks of one well-typed expression are equal.
pub proof fn lemma_check_deterministic(
    r: Resolver,
    cur: Option<Seq<char>>,
    e: ast::Expression,
    r1: SpecCheck,
    r2: SpecCheck,
)
    requires
        r1 == spec_check_expr(r, cur, e),
        r2 == spec_check_expr(r, cur, e),
    ensures
        r1 == r2,
{
}

/// Law: addition and subtraction of two well-typed operands succeed exactly
/// when the operand types are equal; the result then has either operand's
/// type, and otherwise the check fails with an incompatible-dimensions
/// error carrying both types.
pub proof fn lemma_add_sub_dimensions(
    r: Resolver,
    cur: Option<Seq<char>>,
    e: ast::Expression,
    lt: Seq<(u64, Rational)>,
    rt: Seq<(u64, Rational)>,
)
    requires
        e is BinaryOperator,
        e->BinaryOperator_1 == BinaryOperator::Add || e->BinaryOperator_1 == BinaryOperator::Sub,
        spec_check_expr(r, cur, *e->BinaryOperator_2) == SpecCheck::Typed(lt),
        spec_check_expr(r, cur, *e->BinaryOperator_3) == SpecCheck::Typed(rt),
    ensures
        lt == rt ==> spec_check_expr(r, cur, e) == SpecCheck::Typed(lt),
        lt != rt ==> spec_check_expr(r, cur, e) == SpecCheck::Incompatible(
            lt,
            rt,
            Some(e->BinaryOperator_1),
            None,
        ),
{
}

/// Law: exponentiation by an expression that is not a compile-time
/// constant always fails as an unsupported exponent, whatever the base.
pub proof fn lemma_power_nonconstant(
    r: Resolver,
    cur: Option<Seq<char>>,
    e: ast::Expression,
    lt: Seq<(u64, Rational)>,
)
    requires
        e is BinaryOperator,
        e->BinaryOperator_1 == BinaryOperator::Power,
        spec_check_expr(r, cur, *e->BinaryOperator_2) == SpecCheck::Typed(lt),
        spec_const_eval(*e->BinaryOperator_3) == ConstEval::NonConstant,
    ensures
        spec_check_expr(r, cur, e) == SpecCheck::NonConstant,
{
}

/// Law: a successful exponentiation scales every exponent of the base's
/// type by the constant exponent: the scaled type is exactly the canonical
/// vector `w` with that property.
pub proof fn lemma_power_scales(
    lt: Seq<(u64, Rational)>,
    v: Rational,
    s: Seq<(u64, Rational)>,
    w: Seq<(u64, Rational)>,
)
    requires
        crate::registry::seq_wf(w),
        forall|k: int|
            Some(#[trigger] crate::registry::seq_exp(w, k)) == crate::registry::seq_exp(
                lt,
                k,
            ).spec_mul(v),
        spec_scale_seq(lt, v) == Some(s),
    ensures
        s == w,
        forall|k: int|
            Some(#[trigger] crate::registry::seq_exp(s, k)) == crate::registry::seq_exp(
                lt,
                k,
            ).spec_mul(v),
{
    crate::registry::lemma_scale_choose(lt, v, s, w);
}

/// The specification-level resolution of a dimension expression against
/// the declared dimensions: the canonical factor list it denotes, or `None`
/// when a name is unbound or an exponent leaves the machine range.
pub open spec fn spec_resolve_dimexpr(reg: Registry, d: ast::DimensionExpression) -> Option<
    Seq<(u64, Rational)>,
>
    decreases d,
{
    match d {
        ast::DimensionExpression::Unity(_) => Some(Seq::empty()),
        ast::DimensionExpression::Dimension(_, name) => if reg.has_dimension(name@) {
            Some(
                seq![
                    (crate::registry::dimension_index(reg, name@) as u64, Rational::spec_one()),
                ],
            )
        } else {
            None
        },
        ast::DimensionExpression::Multiply(_, lhs, rhs) => match spec_resolve_dimexpr(reg, *lhs) {
            Some(a) => match spec_resolve_dimexpr(reg, *rhs) {
                Some(b) => spec_combine_seq(a, b, CombineOp::Multiply),
                None => None,
            },
            None => None,
        },
        ast::DimensionExpression::Divide(_, lhs, rhs) => match spec_resolve_dimexpr(reg, *lhs) {
            Some(a) => match spec_resolve_dimexpr(reg, *rhs) {
                Some(b) => spec_combine_seq(a, b, CombineOp::Divide),
                None => None,
            },
            None => None,
        },
        ast::DimensionExpression::Power(_, base, n) => match spec_resolve_dimexpr(reg, *base) {
            Some(a) => if n == i64::MIN {
                None
            } else {
                spec_scale_seq(a, Rational { num: n, den: 1 })
            },
            None => None,
        },
    }
}

/// `env` is `base` with exactly one extra innermost scope `pscope`.
pub open spec fn seeded_with(env: Resolver, base: Resolver, pscope: Vec<(String, Binding)>) -> bool {
    &&& env.scopes@ == base.scopes@.push(pscope)
    &&& env.code_sources@ == base.code_sources@
}

/// `pscope` binds exactly the declared parameters, in order, each as a
/// variable of its resolved dimension type.
pub open spec fn scope_binds_params(
    pscope: Vec<(String, Binding)>,
    params: Seq<(String, ast::DimensionExpression)>,
    reg: Registry,
) -> bool {
    &&& pscope@.len() == params.len()
    &&& forall|t: int|
        0 <= t < params.len() ==> (#[trigger] pscope@[t]).0@ == params[t].0@ && (pscope@[t].1
            matches Binding::Variable(ty) && Some(ty.factors@) == spec_resolve_dimexpr(
            reg,
            params[t].1,
        ))
}

/// The type checker: a registry and a resolver, exclusively owned by one
/// checking session, consuming one statement at a time.
pub struct TypeChecker {
    pub registry: Registry,
    pub resolver: Resolver,
}

impl TypeChecker {
    /// Registry and resolver invariants hold together.
    pub open spec fn wf(self) -> bool {
        self.registry.wf() && self.resolver.wf()
    }

    /// The state left untouched: no binding and no registration changed.
    pub open spec fn unchanged_from(self, other: TypeChecker) -> bool {
        &&& self.registry.dimensions@ == other.registry.dimensions@
        &&& self.registry.units@ == other.registry.units@
        &&& self.resolver.scopes@ == other.resolver.scopes@
        &&& self.resolver.code_sources@ == other.resolver.code_sources@
    }

    /// Registry and resolver grow append-only: everything bound in `pre` is
    /// still bound, unchanged, in `self`; at most the innermost scope and
    /// the registry gained entries.
    pub open spec fn extends(self, pre: TypeChecker) -> bool {
        &&& self.resolver.code_sources@ == pre.resolver.code_sources@
        &&& self.resolver.scopes@.len() == pre.resolver.scopes@.len()
        &&& forall|t: int|
            0 <= t < pre.resolver.scopes@.len() - 1 ==> (#[trigger] self.resolver.scopes@[t])
                == pre.resolver.scopes@[t]
        &&& self.resolver.scopes@.last()@.len() >= pre.resolver.scopes@.last()@.len()
        &&& forall|t: int|
            0 <= t < pre.resolver.scopes@.last()@.len() ==> (
            #[trigger] self.resolver.scopes@.last()@[t]) == pre.resolver.scopes@.last()@[t]
        &&& self.registry.dimensions@.len() >= pre.registry.dimensions@.len()
        &&& forall|t: int|
            0 <= t < pre.registry.dimensions@.len() ==> (#[trigger] self.registry.dimensions@[t])
                == pre.registry.dimensions@[t]
        &&& self.registry.units@.len() >= pre.registry.units@.len()
        &&& forall|t: int|
            0 <= t < pre.registry.units@.len() ==> (#[trigger] self.registry.units@[t])
                == pre.registry.units@[t]
    }

    /// A fresh checking session: empty registry, one empty global scope.
    pub fn new() -> (r: TypeChecker)
        ensures
            r.wf(),
            r.registry.dimensions@.len() == 0,
            r.registry.units@.len() == 0,
            r.resolver.scopes@.len() == 1,
    {
        TypeChecker { registry: Registry::new(), resolver: Resolver::new() }
    }

    /// Resolve a dimension expression against the declared dimensions into
    /// a canonical dimension type.
    pub fn resolve_dimension_expression(&self, d: &ast::DimensionExpression) -> (r: Result<
        BaseRepresentation,
        TypeCheckError,
    >)
        requires
            self.wf(),
        ensures
            r is Ok <==> spec_resolve_dimexpr(self.registry, *d) is Some,
            r is Ok ==> r->Ok_0.wf() && Some(r->Ok_0.factors@) == spec_resolve_dimexpr(
                self.registry,
                *d,
            ),
            r matches Err(err) ==> (err.kind matches TypeCheckErrorKind::UndefinedIdentifier(_)
                || err.kind == TypeCheckErrorKind::InvalidDimensionExpression),
        decreases *d,
    {
        match d {
            ast::DimensionExpression::Unity(_) => {
                let u = BaseRepresentation::unity();
                proof {
                    assert(u.factors@ =~= Seq::<(u64, Rational)>::empty());
                }
                Ok(u)
            },
            ast::DimensionExpression::Dimension(span, name) => {
                match self.registry.dimension_id(name.as_str()) {
                    Some(id) => {
                        proof {
                            crate::registry::lemma_dimension_index_unique(
                                self.registry,
                                name@,
                                id as int,
                            );
                        }
                        Ok(BaseRepresentation::from_dimension(id))
                    },
                    None => Err(
                        TypeCheckError {
                            kind: TypeCheckErrorKind::UndefinedIdentifier(name.clone()),
                            span: *span,
                        },
                    ),
                }
            },
            ast::DimensionExpression::Multiply(span, lhs, rhs) => {
                let lt = match self.resolve_dimension_expression(lhs) {
                    Ok(t) => t,
                    Err(err) => {
                        return Err(err);
                    },
                };
                let rt = match self.resolve_dimension_expression(rhs) {
                    Ok(t) => t,
                    Err(err) => {
                        return Err(err);
                    },
                };
                match combine(&lt, &rt, CombineOp::Multiply) {
                    Some(t) => Ok(t),
                    None => Err(
                        TypeCheckError {
                            kind: TypeCheckErrorKind::InvalidDimensionExpression,
                            span: *span,
                        },
                    ),
                }
            },
            ast::DimensionExpression::Divide(span, lhs, rhs) => {
                let lt = match self.resolve_dimension_expression(lhs) {
                    Ok(t) => t,
                    Err(err) => {
                        return Err(err);
                    },
                };
                let rt = match self.resolve_dimension_expression(rhs) {
                    Ok(t) => t,
                    Err(err) => {
                        return Err(err);
                    },
                };
                match combine(&lt, &rt, CombineOp::Divide) {
                    Some(t) => Ok(t),
                    None => Err(
                        TypeCheckError {
                            kind: TypeCheckErrorKind::InvalidDimensionExpression,
                            span: *span,
                        },
                    ),
                }
            },
            ast::DimensionExpression::Power(span, base, n) => {
                let bt = match self.resolve_dimension_expression(base) {
                    Ok(t) => t,
                    Err(err) => {
                        return Err(err);
                    },
                };
                if *n == i64::MIN {
                    return Err(
                        TypeCheckError {
                            kind: TypeCheckErrorKind::InvalidDimensionExpression,
                            span: *span,
                        },
                    );
                }
                let k = Rational::from_int(*n);
                match scale(&bt, &k) {
                    Some(t) => Ok(t),
                    None => Err(
                        TypeCheckError {
                            kind: TypeCheckErrorKind::InvalidDimensionExpression,
                            span: *span,
                        },
                    ),
                }
            },
        }
    }
}


impl TypeChecker {
    /// Type-check one statement. Success may bind names and register
    /// dimensions or units; failure is atomic: the session state is exactly
    /// what it was. Errors carry the span of the statement or of the
    /// offending expression.
    #[verifier::loop_isolation(false)]
    #[verifier::rlimit(100)]
    pub fn check_statement(&mut self, s: &ast::Statement) -> (r: Result<
        typed_ast::Statement,
        TypeCheckError,
    >)
        requires
            old(self).wf(),
            stmt_wf(*s),
        ensures
            final(self).wf(),
            final(self).extends(*old(self)),
            r is Err ==> final(self).unchanged_from(*old(self)),
            s matches ast::Statement::Expression(e) ==> final(self).unchanged_from(*old(self)) && (
            match r {
                Ok(ts) => ts matches typed_ast::Statement::Expression(te) && SpecCheck::Typed(
                    te.spec_type_factors(),
                ) == spec_check_expr(old(self).resolver, None, *e),
                Err(err) => !(spec_check_expr(old(self).resolver, None, *e) is Typed),
            }),
            s matches ast::Statement::DeclareDimension(_, name) ==> {
                &&& (old(self).registry.has_dimension(name@) ==> (r matches Err(err)
                    && err.kind == TypeCheckErrorKind::DuplicateDimension))
                &&& (!old(self).registry.has_dimension(name@) && !old(self).registry.has_unit(
                    name@,
                ) && !old(self).resolver.declared_here(name@) ==> r is Ok)
                &&& (r is Ok ==> final(self).resolver.spec_resolve(name@) == Some(
                    Binding::Dimension(old(self).registry.dimensions@.len() as u64),
                ))
                &&& (r is Ok ==> {
                    &&& !old(self).registry.has_dimension(name@)
                    &&& final(self).registry.dimensions@.len() == old(self).registry.dimensions@.len() + 1
                    &&& (final(self).registry.dimensions@.last())@ == name@
                    &&& forall|t: int|
                        0 <= t < old(self).registry.dimensions@.len() ==> (#[trigger] final(self).registry.dimensions@[t]) == old(self).registry.dimensions@[t]
                    &&& final(self).registry.has_dimension(name@)
                    &&& final(self).registry.units@ == old(self).registry.units@
                })
            },
            s matches ast::Statement::DeclareVariable(_, name, e) ==> (spec_check_expr(
                old(self).resolver,
                None,
                *e,
            ) is Typed && !old(self).resolver.declared_here(name@) ==> r is Ok) && (r is Ok ==> {
                &&& spec_check_expr(old(self).resolver, None, *e) is Typed
                &&& final(self).resolver.spec_resolve(name@) matches Some(Binding::Variable(t))
                    && SpecCheck::Typed(t.factors@) == spec_check_expr(old(self).resolver, None, *e)
                &&& final(self).registry.dimensions@ == old(self).registry.dimensions@
                &&& final(self).registry.units@ == old(self).registry.units@
            }),
            s matches ast::Statement::DeclareDerivedUnit(_, name, e) ==> (spec_check_expr(
                old(self).resolver,
                None,
                *e,
            ) is Typed && !old(self).resolver.declared_here(name@) && !old(
                self,
            ).registry.has_dimension(name@) && !old(self).registry.has_unit(name@) ==> r is Ok) && (
            r is Ok ==> {
                &&& final(self).registry.units@.len() == old(self).registry.units@.len() + 1
                &&& (final(self).registry.units@.last().0)@ == name@
                &&& SpecCheck::Typed(final(self).registry.units@.last().1.factors@)
                    == spec_check_expr(old(self).resolver, None, *e)
                &&& final(self).resolver.spec_resolve(name@) matches Some(Binding::Unit(t))
                    && t.factors@ == final(self).registry.units@.last().1.factors@
                &&& final(self).registry.dimensions@ == old(self).registry.dimensions@
            }),
            s matches ast::Statement::DeclareBaseUnit(_, name, dexpr) ==> (spec_resolve_dimexpr(
                old(self).registry,
                *dexpr,
            ) is Some && !old(self).resolver.declared_here(name@) && !old(
                self,
            ).registry.has_dimension(name@) && !old(self).registry.has_unit(name@) ==> r is Ok) && (
            r is Ok ==> Some(final(self).registry.units@.last().1.factors@) == spec_resolve_dimexpr(
                old(self).registry,
                *dexpr,
            )) && (r is Ok ==> {
                &&& final(self).registry.units@.len() == old(self).registry.units@.len() + 1
                &&& (final(self).registry.units@.last().0)@ == name@
                &&& final(self).resolver.spec_resolve(name@) matches Some(Binding::Unit(t))
                    && t.factors@ == final(self).registry.units@.last().1.factors@
                &&& final(self).registry.dimensions@ == old(self).registry.dimensions@
            }),
            s matches ast::Statement::ProcedureCall(_, kind, args) ==> {
                &&& final(self).unchanged_from(*old(self))
                &&& (r matches Ok(ts) ==> (ts matches typed_ast::Statement::ProcedureCall(
                    k2,
                    targs,
                ) && k2 == *kind && targs@.len() == args@.len() && forall|t: int|
                    0 <= t < args@.len() ==> SpecCheck::Typed(
                        (#[trigger] targs@[t]).spec_type_factors(),
                    ) == spec_check_expr(old(self).resolver, None, args@[t])))
                &&& ((forall|t: int|
                    0 <= t < args@.len() ==> (#[trigger] spec_check_expr(
                        old(self).resolver,
                        None,
                        args@[t],
                    )) is Typed) ==> r is Ok)
            },
            s matches ast::Statement::DeclareFunction(_, name, params, body, ret) ==> {
                &&& (r is Ok ==> (final(self).resolver.spec_resolve(name@) matches Some(
                    Binding::Function(sig),
                ) && sig.parameters@.len() == params@.len() && (forall|t: int|
                    0 <= t < params@.len() ==> (#[trigger] sig.parameters@[t]).0@
                        == params@[t].0@ && Some(sig.parameters@[t].1.factors@)
                        == spec_resolve_dimexpr(old(self).registry, params@[t].1)) && (
                ret matches Some(rd) ==> Some(sig.return_type.factors@) == spec_resolve_dimexpr(
                    old(self).registry,
                    *rd,
                )) && (body matches Some(b) ==> exists|env: Resolver, pscope: Vec<
                    (String, Binding),
                >|
                    #[trigger] seeded_with(env, old(self).resolver, pscope) && scope_binds_params(
                        pscope,
                        params@,
                        old(self).registry,
                    ) && spec_check_expr(env, Some(name@), *b) == SpecCheck::Typed(
                        sig.return_type.factors@,
                    )) && (body is None ==> ret is Some)))
                &&& (r matches Err(err) ==> (err.kind matches
                    TypeCheckErrorKind::ReturnTypeMismatch { declared, inferred } ==> (
                ret matches Some(rd) && body is Some && declared.factors@ != inferred.factors@
                    && Some(declared.factors@) == spec_resolve_dimexpr(old(self).registry, *rd))))
                &&& (body is None && (ret matches Some(rd) && spec_resolve_dimexpr(
                    old(self).registry,
                    *rd,
                ) is Some) && (forall|t: int|
                    0 <= t < params@.len() ==> (#[trigger] spec_resolve_dimexpr(
                        old(self).registry,
                        params@[t].1,
                    )) is Some) && (forall|t: int, u: int|
                    0 <= t < u < params@.len() ==> (#[trigger] params@[t].0)@ != (
                    #[trigger] params@[u].0)@) && !old(self).resolver.declared_here(name@)
                    ==> r is Ok)
            },
    {
        match s {
            ast::Statement::Expression(e) => match check_expression(&self.resolver, None, e) {
                Ok(te) => Ok(typed_ast::Statement::Expression(te)),
                Err(err) => Err(err),
            },
            ast::Statement::DeclareDimension(span, name) => {
                if self.registry.dimension_id(name.as_str()).is_some() {
                    return Err(
                        TypeCheckError { kind: TypeCheckErrorKind::DuplicateDimension, span: *span },
                    );
                }
                if self.resolver.lookup_here(name.as_str()) {
                    return Err(
                        TypeCheckError {
                            kind: TypeCheckErrorKind::Redeclaration(name.clone()),
                            span: *span,
                        },
                    );
                }
                let id = match self.registry.register_base_dimension(name.as_str()) {
                    Ok(id) => id,
                    Err(_) => {
                        return Err(
                            TypeCheckError {
                                kind: TypeCheckErrorKind::Redeclaration(name.clone()),
                                span: *span,
                            },
                        );
                    },
                };
                match self.resolver.declare(name.as_str(), Binding::Dimension(id)) {
                    Ok(_) => Ok(typed_ast::Statement::DeclareDimension(name.clone())),
                    Err(_) => {
                        proof {
                            assert(false);
                        }
                        Err(
                            TypeCheckError {
                                kind: TypeCheckErrorKind::Redeclaration(name.clone()),
                                span: *span,
                            },
                        )
                    },
                }
            },
            ast::Statement::DeclareVariable(span, name, e) => {
                let te = match check_expression(&self.resolver, None, e) {
                    Ok(te) => te,
                    Err(err) => {
                        return Err(err);
                    },
                };
                let t = te.get_type();
                match self.resolver.declare(name.as_str(), Binding::Variable(t)) {
                    Ok(_) => {
                        let t2 = te.get_type();
                        Ok(typed_ast::Statement::DeclareVariable(name.clone(), te, t2))
                    },
                    Err(kind) => Err(TypeCheckError { kind, span: *span }),
                }
            },
            ast::Statement::DeclareDerivedUnit(span, name, e) => {
                let te = match check_expression(&self.resolver, None, e) {
                    Ok(te) => te,
                    Err(err) => {
                        return Err(err);
                    },
                };
                let t = te.get_type();
                if self.resolver.lookup_here(name.as_str()) {
                    return Err(
                        TypeCheckError {
                            kind: TypeCheckErrorKind::Redeclaration(name.clone()),
                            span: *span,
                        },
                    );
                }
                let t2 = t.duplicate();
                match self.registry.register_derived_unit(name.as_str(), t) {
                    Ok(_) => {},
                    Err(_) => {
                        return Err(
                            TypeCheckError {
                                kind: TypeCheckErrorKind::Redeclaration(name.clone()),
                                span: *span,
                            },
                        );
                    },
                }
                match self.resolver.declare(name.as_str(), Binding::Unit(t2)) {
                    Ok(_) => Ok(typed_ast::Statement::DeclareDerivedUnit(name.clone(), te)),
                    Err(kind) => {
                        proof {
                            assert(false);
                        }
                        Err(TypeCheckError { kind, span: *span })
                    },
                }
            },
            ast::Statement::DeclareBaseUnit(span, name, dexpr) => {
                let t = match self.resolve_dimension_expression(dexpr) {
                    Ok(t) => t,
                    Err(err) => {
                        return Err(err);
                    },
                };
                if self.resolver.lookup_here(name.as_str()) {
                    return Err(
                        TypeCheckError {
                            kind: TypeCheckErrorKind::Redeclaration(name.clone()),
                            span: *span,
                        },
                    );
                }
                let t2 = t.duplicate();
                let t3 = t.duplicate();
                match self.registry.register_derived_unit(name.as_str(), t) {
                    Ok(_) => {},
                    Err(_) => {
                        return Err(
                            TypeCheckError {
                                kind: TypeCheckErrorKind::Redeclaration(name.clone()),
                                span: *span,
                            },
                        );
                    },
                }
                match self.resolver.declare(name.as_str(), Binding::Unit(t2)) {
                    Ok(_) => Ok(typed_ast::Statement::DeclareBaseUnit(name.clone(), t3)),
                    Err(kind) => {
                        proof {
                            assert(false);
                        }
                        Err(TypeCheckError { kind, span: *span })
                    },
                }
            },
            ast::Statement::ProcedureCall(span, kind, args) => {
                let n = args.len();
                let mut typed_args: Vec<typed_ast::Expression> = Vec::new();
                let mut i: usize = 0;
                while i < n
                    invariant
                        0 <= i <= n,
                        n == args@.len(),
                        self.wf(),
                        all_args_wf(*args, 0),
                        *self == *old(self),
                        typed_args@.len() == i,
                        forall|t: int|
                            0 <= t < i ==> SpecCheck::Typed(
                                (#[trigger] typed_args@[t]).spec_type_factors(),
                            ) == spec_check_expr(old(self).resolver, None, args@[t]),
                    decreases n - i,
                {
                    proof {
                        lemma_args_wf_at(*args, 0, i as int);
                    }
                    match check_expression(&self.resolver, None, &args[i]) {
                        Ok(te) => {
                            typed_args.push(te);
                        },
                        Err(err) => {
                            proof {
                                assert(!(spec_check_expr(
                                    old(self).resolver,
                                    None,
                                    args@[i as int],
                                ) is Typed));
                            }
                            return Err(err);
                        },
                    }
                    i += 1;
                }
                Ok(typed_ast::Statement::ProcedureCall(*kind, typed_args))
            },
            ast::Statement::DeclareFunction(span, name, params, body, ret) => {
                if self.resolver.lookup_here(name.as_str()) {
                    return Err(
                        TypeCheckError {
                            kind: TypeCheckErrorKind::Redeclaration(name.clone()),
                            span: *span,
                        },
                    );
                }
                // Resolve the declared parameter types first: failures here
                // touch nothing.
                let np = params.len();
                let mut ptypes: Vec<(String, BaseRepresentation)> = Vec::new();
                let mut i: usize = 0;
                while i < np
                    invariant
                        0 <= i <= np,
                        np == params@.len(),
                        self.wf(),
                        *self == *old(self),
                        ptypes@.len() == i,
                        forall|t: int|
                            0 <= t < i ==> (#[trigger] ptypes@[t]).1.wf() && ptypes@[t].0@
                                == params@[t].0@ && Some(ptypes@[t].1.factors@)
                                == spec_resolve_dimexpr(old(self).registry, params@[t].1),
                    decreases np - i,
                {
                    match self.resolve_dimension_expression(&params[i].1) {
                        Ok(t) => {
                            ptypes.push((params[i].0.clone(), t));
                        },
                        Err(err) => {
                            return Err(err);
                        },
                    }
                    i += 1;
                }
                let declared_ret = match ret {
                    Some(rd) => match self.resolve_dimension_expression(rd) {
                        Ok(t) => Some(t),
                        Err(err) => {
                            return Err(err);
                        },
                    },
                    None => None,
                };
                // Open the function scope, seed the parameters, check the
                // body; close the scope whatever happens.
                let ghost pre = *self;
                self.resolver.push_scope();
                let mut j: usize = 0;
                while j < np
                    invariant
                        0 <= j <= np,
                        np == ptypes@.len(),
                        self.wf(),
                        self.registry == pre.registry,
                        self.resolver.code_sources@ == pre.resolver.code_sources@,
                        self.resolver.scopes@.len() == pre.resolver.scopes@.len() + 1,
                        forall|t: int|
                            0 <= t < pre.resolver.scopes@.len() ==> (#[trigger] self.resolver.scopes@[t]) == pre.resolver.scopes@[t],
                        forall|t: int|
                            0 <= t < np ==> (#[trigger] ptypes@[t]).1.wf() && ptypes@[t].0@
                                == params@[t].0@ && Some(ptypes@[t].1.factors@)
                                == spec_resolve_dimexpr(old(self).registry, params@[t].1),
                        self.resolver.scopes@.last()@.len() == j,
                        forall|t: int|
                            0 <= t < j ==> (#[trigger] self.resolver.scopes@.last()@[t]).0@
                                == params@[t].0@ && (self.resolver.scopes@.last()@[t].1 matches
                            Binding::Variable(ty) && Some(ty.factors@) == spec_resolve_dimexpr(
                                old(self).registry,
                                params@[t].1,
                            )),
                    decreases np - j,
                {
                    let pname = ptypes[j].0.clone();
                    let ptype = ptypes[j].1.duplicate();
                    match self.resolver.declare(pname.as_str(), Binding::Variable(ptype)) {
                        Ok(_) => {},
                        Err(kind) => {
                            proof {
                                crate::resolver::lemma_lookup_some_witness(
                                    self.resolver.scopes@.last()@,
                                    pname@,
                                );
                            }
                            self.resolver.pop_scope();
                            proof {
                                assert(self.resolver.scopes@ =~= pre.resolver.scopes@);
                            }
                            return Err(TypeCheckError { kind, span: *span });
                        },
                    }
                    j += 1;
                }
                let ghost env = self.resolver;
                let ghost pscope = self.resolver.scopes@.last();
                proof {
                    assert(env.scopes@ =~= pre.resolver.scopes@.push(pscope));
                    assert(seeded_with(env, pre.resolver, pscope));
                    assert(scope_binds_params(pscope, params@, old(self).registry));
                }
                let inferred: Option<(typed_ast::Expression, BaseRepresentation)> = match body {
                    Some(b) => {
                        match check_expression(&self.resolver, Some(name), b) {
                            Ok(te) => {
                                let t = te.get_type();
                                Some((te, t))
                            },
                            Err(err) => {
                                self.resolver.pop_scope();
                                proof {
                                    assert(self.resolver.scopes@ =~= pre.resolver.scopes@);
                                }
                                return Err(err);
                            },
                        }
                    },
                    None => None,
                };
                let ghost ginferred = inferred;
                self.resolver.pop_scope();
                proof {
                    assert(self.resolver.scopes@ =~= pre.resolver.scopes@);
                }
                // Reconcile the inferred and the declared return type.
                let (typed_body, ret_type): (Option<typed_ast::Expression>, BaseRepresentation) =
                    match (inferred, declared_ret) {
                    (Some((te, it)), Some(dt)) => {
                        if it.same_as(&dt) {
                            (Some(te), it)
                        } else {
                            return Err(
                                TypeCheckError {
                                    kind: TypeCheckErrorKind::ReturnTypeMismatch {
                                        declared: dt,
                                        inferred: it,
                                    },
                                    span: *span,
                                },
                            );
                        }
                    },
                    (Some((te, it)), None) => (Some(te), it),
                    (None, Some(dt)) => (None, dt),
                    (None, None) => {
                        return Err(
                            TypeCheckError {
                                kind: TypeCheckErrorKind::InvalidDimensionExpression,
                                span: *span,
                            },
                        );
                    },
                };
                let mut sig_params: Vec<(String, typed_ast::Type)> = Vec::new();
                let mut k: usize = 0;
                while k < np
                    invariant
                        0 <= k <= np,
                        np == ptypes@.len(),
                        sig_params@.len() == k,
                        forall|t: int| 0 <= t < np ==> (#[trigger] ptypes@[t]).1.wf(),
                        forall|t: int| 0 <= t < k ==> (#[trigger] sig_params@[t]).1.wf(),
                    decreases np - k,
                {
                    let pname = ptypes[k].0.clone();
                    let ptype = ptypes[k].1.duplicate();
                    sig_params.push((pname, ptype));
                    k += 1;
                }
                let ret_dup = ret_type.duplicate();
                let sig = FunctionSignature { parameters: ptypes, return_type: ret_type };
                let ghost gsig = sig;
                match self.resolver.declare(name.as_str(), Binding::Function(sig)) {
                    Ok(_) => {
                        proof {
                            assert(final(self).resolver.spec_resolve(name@) == Some(
                                Binding::Function(gsig),
                            ));
                            match body {
                                Some(b) => {
                                    let te = ginferred->Some_0.0;
                                    assert(spec_check_expr(env, Some(name@), *b)
                                        == SpecCheck::Typed(te.spec_type_factors()));
                                    assert(gsig.return_type.factors@ == te.spec_type_factors());
                                    assert(seeded_with(env, old(self).resolver, pscope));
                                    assert(spec_check_expr(env, Some(name@), *b)
                                        == SpecCheck::Typed(gsig.return_type.factors@));
                                },
                                None => {},
                            }
                        }
                        Ok(
                            typed_ast::Statement::DeclareFunction(
                                name.clone(),
                                sig_params,
                                typed_body,
                                ret_dup,
                            ),
                        )
                    },
                    Err(kind) => {
                        proof {
                            assert(false);
                        }
                        Err(TypeCheckError { kind, span: *span })
                    },
                }
            },
        }
    }
}

/// Whether every numeric literal in a statement is a canonical rational.
pub open spec fn stmt_wf(s: ast::Statement) -> bool {
    match s {
        ast::Statement::Expression(e) => expr_wf(e),
        ast::Statement::DeclareVariable(_, _, e) => expr_wf(e),
        ast::Statement::DeclareFunction(_, _, _, body, _) => match body {
            Some(b) => expr_wf(b),
            None => true,
        },
        ast::Statement::DeclareDimension(_, _) => true,
        ast::Statement::DeclareBaseUnit(_, _, _) => true,
        ast::Statement::DeclareDerivedUnit(_, _, e) => expr_wf(e),
        ast::Statement::ProcedureCall(_, _, args) => all_args_wf(args, 0),
    }
}

} // verus!
