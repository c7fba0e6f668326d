//! The evaluator: a pure structural recursion folding an expression tree into
//! a 32-bit signed integer or a structured error.
//!
//! Semantics: `Add`/`Sub`/`Mul` are ordinary signed arithmetic, failing with
//! `Overflow` instead of wrapping; `Div` is integer division truncating
//! toward zero, failing with `DivisionByZero` on a zero right operand (and
//! with `Overflow` on `i32::MIN / -1`); `Pow` raises the left operand to a
//! non-negative exponent, failing with `NegativeExponent` otherwise; unary
//! `Sub` negates and unary `Add` is the identity.  The reserved operators
//! `Eq`, `Neq`, `And`, `Or` and `Not` fail with `Unsupported`.

use vstd::prelude::*;
use vstd::arithmetic::power::{pow, lemma_pow_adds, lemma_pow_increases, lemma_pow1};
use vstd::math::abs;
use crate::span::Span;
use crate::ast::{Op, Expr, EvalError};

verus! {

/// `x` fits a 32-bit signed integer.
pub open spec fn in_i32(x: int) -> bool {
    i32::MIN <= x <= i32::MAX
}

/// Integer division truncating toward zero (the quotient of the magnitudes,
/// with the usual sign rule), as distinct from Euclidean or floor division.
pub open spec fn trunc_div(x: int, d: int) -> int
    recommends
        d != 0,
{
    if x == 0 {
        0
    } else if x > 0 && d > 0 {
        x / d
    } else if x < 0 && d < 0 {
        (x * -1) / (d * -1)
    } else if x < 0 {
        ((x * -1) / d) * -1
    } else {
        (x / (d * -1)) * -1
    }
}

/// What raising `base` to `exp` yields: the mathematical power if it fits a
/// 32-bit signed integer, `Overflow` otherwise.
pub open spec fn spec_pow_result(base: i32, exp: i32, sp: Span) -> Result<i32, EvalError>
    recommends
        exp >= 0,
{
    if in_i32(pow(base as int, exp as nat)) {
        Ok(pow(base as int, exp as nat) as i32)
    } else {
        Err(EvalError::Overflow(sp))
    }
}

/// The value of an expression, or the first error found: operands are
/// evaluated left to right before the operator itself is examined, so an
/// error in the left operand wins over one in the right, and both win over an
/// error of the operator.  Every error carries the span of the node that
/// raised it.
pub open spec fn spec_eval(e: Expr) -> Result<i32, EvalError>
    decreases e,
{
    match e {
        Expr::Num(v, _) => Ok(v),
        Expr::Par(inner, _) => spec_eval(*inner),
        Expr::UnaryOp(op, operand, sp) => match spec_eval(*operand) {
            Err(er) => Err(er),
            Ok(v) => match op {
                Op::Add => Ok(v),
                Op::Sub => if in_i32(-(v as int)) {
                    Ok((-(v as int)) as i32)
                } else {
                    Err(EvalError::Overflow(sp))
                },
                _ => Err(EvalError::Unsupported(op, sp)),
            },
        },
        Expr::BinOp(op, l, r, sp) => match spec_eval(*l) {
            Err(er) => Err(er),
            Ok(lv) => match spec_eval(*r) {
                Err(er) => Err(er),
                Ok(rv) => match op {
                    Op::Add => if in_i32(lv + rv) {
                        Ok((lv + rv) as i32)
                    } else {
                        Err(EvalError::Overflow(sp))
                    },
                    Op::Sub => if in_i32(lv - rv) {
                        Ok((lv - rv) as i32)
                    } else {
                        Err(EvalError::Overflow(sp))
                    },
                    Op::Mul => if in_i32(lv * rv) {
                        Ok((lv * rv) as i32)
                    } else {
                        Err(EvalError::Overflow(sp))
                    },
                    Op::Div => if rv == 0 {
                        Err(EvalError::DivisionByZero(sp))
                    } else if in_i32(trunc_div(lv as int, rv as int)) {
                        Ok(trunc_div(lv as int, rv as int) as i32)
                    } else {
                        Err(EvalError::Overflow(sp))
                    },
                    Op::Pow => if rv < 0 {
                        Err(EvalError::NegativeExponent(sp))
                    } else {
                        spec_pow_result(lv, rv, sp)
                    },
                    _ => Err(EvalError::Unsupported(op, sp)),
                },
            },
        },
    }
}

/// The magnitude of a power is the power of the magnitude.
proof fn lemma_pow_abs(b: int, e: nat)
    ensures
        abs(pow(b, e)) == pow(abs(b) as int, e),
    decreases e,
{
    reveal(pow);
    if e != 0 {
        lemma_pow_abs(b, (e - 1) as nat);
        assert(abs(b * pow(b, (e - 1) as nat)) == abs(b) * abs(pow(b, (e - 1) as nat)))
            by (nonlinear_arith);
    }
}

/// A power of a base of magnitude at most one has magnitude at most one.
proof fn lemma_pow_small(a: int, e: nat)
    requires
        0 <= a <= 1,
    ensures
        0 <= pow(a, e) <= 1,
    decreases e,
{
    reveal(pow);
    if e != 0 {
        lemma_pow_small(a, (e - 1) as nat);
        assert(0 <= a * pow(a, (e - 1) as nat) <= 1) by (nonlinear_arith)
            requires 0 <= a <= 1 && 0 <= pow(a, (e - 1) as nat) <= 1;
    }
}

/// Once a power has left the 32-bit range, every higher power of the same
/// base is out of range too, so the evaluator may stop at the first oversized
/// intermediate product.
proof fn lemma_pow_stays_out_of_range(b: int, i: nat, e: nat)
    requires
        i <= e,
        !in_i32(pow(b, i)),
    ensures
        !in_i32(pow(b, e)),
{
    if i < e {
        let a = abs(b) as int;
        lemma_pow_abs(b, i);
        lemma_pow_abs(b, e);
        if a <= 1 {
            lemma_pow_small(a, i);
            assert(false);
        }
        assert(pow(a, i) >= 0x8000_0000);
        lemma_pow_adds(a, i, (e - i) as nat);
        lemma_pow1(a);
        lemma_pow_increases(a as nat, 1, (e - i) as nat);
        assert(pow(a, (e - i) as nat) >= a);
        assert(pow(a, i) * pow(a, (e - i) as nat) >= 0x1_0000_0000) by (nonlinear_arith)
            requires pow(a, i) >= 0x8000_0000 && pow(a, (e - i) as nat) >= 2;
    }
}

/// Raises `base` to the non-negative exponent `exp` by repeated
/// multiplication, reporting `Overflow` (at span `sp`) as soon as a product
/// leaves the 32-bit range.
pub fn pow_checked(base: i32, exp: i32, sp: Span) -> (r: Result<i32, EvalError>)
    requires
        exp >= 0,
    ensures
        r == spec_pow_result(base, exp, sp),
{
    let mut acc: i32 = 1;
    let mut i: i32 = 0;
    proof {
        reveal(pow);
    }
    while i < exp
        invariant
            0 <= i <= exp,
            acc as int == pow(base as int, i as nat),
        decreases exp - i,
    {
        match acc.checked_mul(base) {
            Some(next) => {
                proof {
                    reveal(pow);
                    assert(pow(base as int, (i + 1) as nat) == base as int * pow(
                        base as int,
                        i as nat,
                    ));
                }
                acc = next;
                i = i + 1;
            },
            None => {
                proof {
                    reveal(pow);
                    assert(pow(base as int, (i + 1) as nat) == base as int * pow(
                        base as int,
                        i as nat,
                    ));
                    lemma_pow_stays_out_of_range(base as int, (i + 1) as nat, exp as nat);
                }
                return Err(EvalError::Overflow(sp));
            },
        }
    }
    Ok(acc)
}

/// Evaluates an expression tree, spec'd by [`spec_eval`]: grouping is
/// transparent, arithmetic is checked, reserved operators are `Unsupported`.
pub fn evaluate(e: &Expr) -> (r: Result<i32, EvalError>)
    ensures
        r == spec_eval(*e),
    decreases *e,
{
    match e {
        Expr::Num(v, _) => Ok(*v),
        Expr::Par(inner, _) => evaluate(&**inner),
        Expr::UnaryOp(op, operand, sp) => match evaluate(&**operand) {
            Err(er) => Err(er),
            Ok(v) => match op {
                Op::Add => Ok(v),
                Op::Sub => if v == i32::MIN {
                    Err(EvalError::Overflow(*sp))
                } else {
                    Ok(-v)
                },
                _ => Err(EvalError::Unsupported(*op, *sp)),
            },
        },
        Expr::BinOp(op, l, r, sp) => match evaluate(&**l) {
            Err(er) => Err(er),
            Ok(lv) => match evaluate(&**r) {
                Err(er) => Err(er),
                Ok(rv) => match op {
                    Op::Add => match lv.checked_add(rv) {
                        Some(v) => Ok(v),
                        None => Err(EvalError::Overflow(*sp)),
                    },
                    Op::Sub => match lv.checked_sub(rv) {
                        Some(v) => Ok(v),
                        None => Err(EvalError::Overflow(*sp)),
                    },
                    Op::Mul => match lv.checked_mul(rv) {
                        Some(v) => Ok(v),
                        None => Err(EvalError::Overflow(*sp)),
                    },
                    Op::Div => if rv == 0 {
                        Err(EvalError::DivisionByZero(*sp))
                    } else {
                        match lv.checked_div(rv) {
                            Some(v) => Ok(v),
                            None => Err(EvalError::Overflow(*sp)),
                        }
                    },
                    Op::Pow => if rv < 0 {
                        Err(EvalError::NegativeExponent(*sp))
                    } else {
                        pow_checked(lv, rv, *sp)
                    },
                    _ => Err(EvalError::Unsupported(*op, *sp)),
                },
            },
        },
    }
}

} // verus!
