use expr_climb::span::Span;
use expr_climb::ast::{Op, Expr, EvalError};
use expr_climb::prec::{Ass, get_prec};
use expr_climb::eval::evaluate;
use expr_climb::parse_expression;

fn sp(offset: usize, len: usize, line: usize, col: usize) -> Span {
    Span { offset, len, line, col }
}

fn num(v: i32) -> Box<Expr> {
    Box::new(Expr::Num(v, sp(0, 0, 1, 1)))
}

fn ev(source: &str) -> Result<i32, EvalError> {
    evaluate(&parse_expression(source).unwrap())
}

#[test]
fn addition_overflow_is_reported() {
    assert_eq!(
        ev("2147483647+1"),
        Err(EvalError::Overflow(sp(0, 12, 1, 1)))
    );
}

#[test]
fn subtraction_overflow_is_reported() {
    let e = Expr::BinOp(Op::Sub, num(i32::MIN), num(1), sp(0, 5, 1, 1));
    assert_eq!(evaluate(&e), Err(EvalError::Overflow(sp(0, 5, 1, 1))));
}

#[test]
fn multiplication_overflow_is_reported() {
    assert_eq!(
        ev("65536*65536"),
        Err(EvalError::Overflow(sp(0, 11, 1, 1)))
    );
}

#[test]
fn negating_the_minimum_overflows() {
    let e = Expr::UnaryOp(Op::Sub, num(i32::MIN), sp(0, 3, 1, 1));
    assert_eq!(evaluate(&e), Err(EvalError::Overflow(sp(0, 3, 1, 1))));
}

#[test]
fn division_truncates_toward_zero() {
    assert_eq!(ev("7/2"), Ok(3));
    assert_eq!(ev("(0-7)/2"), Ok(-3));
    let e = Expr::BinOp(Op::Div, num(-7), num(2), sp(0, 1, 1, 1));
    assert_eq!(evaluate(&e), Ok(-3));
    let e2 = Expr::BinOp(Op::Div, num(7), num(-2), sp(0, 1, 1, 1));
    assert_eq!(evaluate(&e2), Ok(-3));
}

#[test]
fn dividing_the_minimum_by_minus_one_overflows() {
    let e = Expr::BinOp(Op::Div, num(i32::MIN), num(-1), sp(0, 4, 1, 1));
    assert_eq!(evaluate(&e), Err(EvalError::Overflow(sp(0, 4, 1, 1))));
}

#[test]
fn power_of_zero_exponent_is_one() {
    assert_eq!(ev("2**0"), Ok(1));
    assert_eq!(ev("0**0"), Ok(1));
}

#[test]
fn negative_exponent_is_reported() {
    assert_eq!(
        ev("2**(0-1)"),
        Err(EvalError::NegativeExponent(sp(0, 8, 1, 1)))
    );
    assert_eq!(
        ev("2**-1"),
        Err(EvalError::NegativeExponent(sp(0, 5, 1, 1)))
    );
}

#[test]
fn power_overflow_is_reported() {
    assert_eq!(ev("2**30"), Ok(1073741824));
    assert_eq!(ev("2**31"), Err(EvalError::Overflow(sp(0, 5, 1, 1))));
    assert_eq!(ev("10**10"), Err(EvalError::Overflow(sp(0, 6, 1, 1))));
}

#[test]
fn power_of_negative_base() {
    assert_eq!(ev("(0-2)**3"), Ok(-8));
    assert_eq!(ev("(0-2)**31"), Ok(i32::MIN));
    assert_eq!(ev("(0-2)**32"), Err(EvalError::Overflow(sp(0, 9, 1, 1))));
}

#[test]
fn left_operand_error_wins() {
    let bad_l = Expr::BinOp(Op::Div, num(1), num(0), sp(10, 1, 1, 1));
    let bad_r = Expr::BinOp(Op::Div, num(2), num(0), sp(20, 1, 1, 1));
    let e = Expr::BinOp(Op::Add, Box::new(bad_l), Box::new(bad_r), sp(0, 1, 1, 1));
    assert_eq!(evaluate(&e), Err(EvalError::DivisionByZero(sp(10, 1, 1, 1))));
}

#[test]
fn unsupported_unary_kind_is_reported() {
    let e = Expr::UnaryOp(Op::Eq, num(1), sp(0, 3, 1, 1));
    assert_eq!(evaluate(&e), Err(EvalError::Unsupported(Op::Eq, sp(0, 3, 1, 1))));
}

#[test]
fn precedence_table_is_fixed() {
    assert_eq!(get_prec(&Op::Add), (1, Ass::Left));
    assert_eq!(get_prec(&Op::Sub), (1, Ass::Left));
    assert_eq!(get_prec(&Op::Mul), (2, Ass::Left));
    assert_eq!(get_prec(&Op::Div), (2, Ass::Left));
    assert_eq!(get_prec(&Op::Pow), (3, Ass::Right));
}

#[test]
fn parenthesized_number_keeps_its_node() {
    let e = parse_expression("(5)").unwrap();
    assert_eq!(e.span(), sp(0, 3, 1, 1));
    match &e {
        Expr::Par(inner, _) => assert_eq!(**inner, Expr::Num(5, sp(1, 1, 1, 2))),
        other => panic!("unexpected shape: {:?}", other),
    }
    assert_eq!(evaluate(&e), Ok(5));
}
