use expr_climb::span::Span;
use expr_climb::ast::{Op, Expr, LexError, ParseError, EvalError};
use expr_climb::eval::evaluate;
use expr_climb::parse_expression;

fn sp(offset: usize, len: usize, line: usize, col: usize) -> Span {
    Span { offset, len, line, col }
}

fn ev(source: &str) -> Result<i32, EvalError> {
    evaluate(&parse_expression(source).unwrap())
}

#[test]
fn parse_single_number() {
    let e = parse_expression("42").unwrap();
    assert_eq!(e, Expr::Num(42, sp(0, 2, 1, 1)));
    assert_eq!(evaluate(&e), Ok(42));
}

#[test]
fn parse_largest_number() {
    let e = parse_expression("2147483647").unwrap();
    assert_eq!(e, Expr::Num(2147483647, sp(0, 10, 1, 1)));
    assert_eq!(evaluate(&e), Ok(2147483647));
}

#[test]
fn subtraction_associates_left() {
    assert_eq!(ev("1-2-3"), Ok(-4));
}

#[test]
fn multiplication_binds_before_addition() {
    assert_eq!(ev("1+2*3"), Ok(7));
}

#[test]
fn power_associates_right() {
    assert_eq!(ev("2**3**2"), Ok(512));
}

#[test]
fn parentheses_override_precedence() {
    assert_eq!(ev("(1+2)*3"), Ok(9));
}

#[test]
fn unary_binds_tighter_than_binary() {
    assert_eq!(ev("-1+1"), Ok(0));
    assert_eq!(ev("- -1 + 1"), Ok(2));
}

#[test]
fn unary_binds_tighter_than_power() {
    assert_eq!(ev("-2**2"), Ok(4));
}

#[test]
fn unary_plus_is_identity() {
    assert_eq!(ev("+5"), Ok(5));
}

#[test]
fn division_by_zero_reported_at_node() {
    let e = parse_expression("1/0").unwrap();
    assert_eq!(evaluate(&e), Err(EvalError::DivisionByZero(sp(0, 3, 1, 1))));
}

#[test]
fn malformed_input_is_rejected_whole() {
    let r = parse_expression("1*2+3+3*21-a12+2");
    assert_eq!(
        r,
        Err(ParseError::Lex(LexError::UnexpectedChar(sp(11, 1, 1, 12))))
    );
}

#[test]
fn paren_node_evaluates_like_inner() {
    let inner = Expr::Num(7, sp(1, 1, 1, 2));
    let wrapped = Expr::Par(Box::new(Expr::Num(7, sp(1, 1, 1, 2))), sp(0, 3, 1, 1));
    assert_eq!(evaluate(&wrapped), evaluate(&inner));
}

#[test]
fn trailing_tokens_are_an_error() {
    assert_eq!(
        parse_expression("1 2"),
        Err(ParseError::TrailingInput(sp(2, 1, 1, 3)))
    );
}

#[test]
fn empty_input_is_an_error() {
    assert_eq!(
        parse_expression(""),
        Err(ParseError::UnexpectedToken(sp(0, 0, 1, 1)))
    );
}

#[test]
fn stray_close_paren_is_unexpected() {
    assert_eq!(
        parse_expression(")"),
        Err(ParseError::UnexpectedToken(sp(0, 1, 1, 1)))
    );
}

#[test]
fn close_paren_after_expression_is_trailing() {
    assert_eq!(
        parse_expression("1)"),
        Err(ParseError::TrailingInput(sp(1, 1, 1, 2)))
    );
}

#[test]
fn unmatched_open_paren_fails_at_lex() {
    assert_eq!(
        parse_expression("(1+2"),
        Err(ParseError::Lex(LexError::UnmatchedParen(sp(0, 1, 1, 1))))
    );
}

#[test]
fn innermost_unmatched_paren_is_reported() {
    assert_eq!(
        parse_expression("((1"),
        Err(ParseError::Lex(LexError::UnmatchedParen(sp(1, 1, 1, 2))))
    );
}

#[test]
fn nesting_within_limit_parses() {
    let mut s = String::new();
    for _ in 0..10 {
        s.push('(');
    }
    s.push('7');
    for _ in 0..10 {
        s.push(')');
    }
    assert_eq!(ev(&s), Ok(7));
}

#[test]
fn nesting_beyond_limit_is_guarded() {
    let mut s = String::new();
    for _ in 0..100 {
        s.push('(');
    }
    s.push('7');
    for _ in 0..100 {
        s.push(')');
    }
    let r = parse_expression(&s);
    assert!(matches!(r, Err(ParseError::MaxDepthExceeded(_))));
}

#[test]
fn reserved_operator_parses_but_does_not_evaluate() {
    let e = parse_expression("1==1").unwrap();
    assert_eq!(evaluate(&e), Err(EvalError::Unsupported(Op::Eq, sp(0, 4, 1, 1))));
}

#[test]
fn reserved_operators_chain_left() {
    let e = parse_expression("1&&2||3").unwrap();
    assert_eq!(
        evaluate(&e),
        Err(EvalError::Unsupported(Op::And, sp(0, 4, 1, 1)))
    );
}

#[test]
fn prefix_not_parses_but_does_not_evaluate() {
    let e = parse_expression("!1").unwrap();
    assert_eq!(evaluate(&e), Err(EvalError::Unsupported(Op::Not, sp(0, 2, 1, 1))));
}

#[test]
fn infix_not_is_trailing() {
    assert_eq!(
        parse_expression("1!2"),
        Err(ParseError::TrailingInput(sp(1, 1, 1, 2)))
    );
}

#[test]
fn binary_only_operator_cannot_open_an_atom() {
    assert_eq!(
        parse_expression("*3"),
        Err(ParseError::UnexpectedToken(sp(0, 1, 1, 1)))
    );
    assert_eq!(
        parse_expression("1+*3"),
        Err(ParseError::UnexpectedToken(sp(2, 1, 1, 3)))
    );
}

#[test]
fn root_span_covers_trimmed_input() {
    let e = parse_expression(" 1+2*3  ").unwrap();
    assert_eq!(e.span(), sp(1, 5, 1, 2));
}

#[test]
fn parent_spans_enclose_children() {
    let e = parse_expression("(1+2)*3").unwrap();
    assert_eq!(e.span(), sp(0, 7, 1, 1));
    match e {
        Expr::BinOp(Op::Mul, l, r, _) => {
            assert_eq!(l.span(), sp(0, 5, 1, 1));
            assert_eq!(r.span(), sp(6, 1, 1, 7));
            assert!(matches!(*l, Expr::Par(_, _)));
        },
        other => panic!("unexpected shape: {:?}", other),
    }
}
