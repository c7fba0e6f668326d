use expr_climb::span::Span;
use expr_climb::ast::{Op, Token, LexError};
use expr_climb::lexer::tokenize;

fn sp(offset: usize, len: usize, line: usize, col: usize) -> Span {
    Span { offset, len, line, col }
}

#[test]
fn tokenize_numbers_and_operator() {
    let toks = tokenize("1 + 23").unwrap();
    assert_eq!(
        toks,
        vec![
            Token::Num(1, sp(0, 1, 1, 1)),
            Token::Op(Op::Add, sp(2, 1, 1, 3)),
            Token::Num(23, sp(4, 2, 1, 5)),
        ]
    );
}

#[test]
fn tokenize_empty_input() {
    assert_eq!(tokenize(""), Ok(vec![]));
    assert_eq!(tokenize("   "), Ok(vec![]));
}

#[test]
fn double_star_outmatches_star() {
    let toks = tokenize("1**2").unwrap();
    assert_eq!(
        toks,
        vec![
            Token::Num(1, sp(0, 1, 1, 1)),
            Token::Op(Op::Pow, sp(1, 2, 1, 2)),
            Token::Num(2, sp(3, 1, 1, 4)),
        ]
    );
}

#[test]
fn two_character_operators() {
    let toks = tokenize("==!=&&||").unwrap();
    assert_eq!(
        toks,
        vec![
            Token::Op(Op::Eq, sp(0, 2, 1, 1)),
            Token::Op(Op::Neq, sp(2, 2, 1, 3)),
            Token::Op(Op::And, sp(4, 2, 1, 5)),
            Token::Op(Op::Or, sp(6, 2, 1, 7)),
        ]
    );
}

#[test]
fn one_character_operators() {
    let toks = tokenize("+-*/!").unwrap();
    assert_eq!(
        toks,
        vec![
            Token::Op(Op::Add, sp(0, 1, 1, 1)),
            Token::Op(Op::Sub, sp(1, 1, 1, 2)),
            Token::Op(Op::Mul, sp(2, 1, 1, 3)),
            Token::Op(Op::Div, sp(3, 1, 1, 4)),
            Token::Op(Op::Not, sp(4, 1, 1, 5)),
        ]
    );
}

#[test]
fn lone_two_character_prefixes_are_rejected() {
    assert_eq!(
        tokenize("1=2"),
        Err(LexError::UnexpectedChar(sp(1, 1, 1, 2)))
    );
    assert_eq!(tokenize("&"), Err(LexError::UnexpectedChar(sp(0, 1, 1, 1))));
    assert_eq!(tokenize("|"), Err(LexError::UnexpectedChar(sp(0, 1, 1, 1))));
}

#[test]
fn oversized_number_is_not_an_integer() {
    assert_eq!(
        tokenize("2147483648"),
        Err(LexError::NotAnInteger(sp(0, 10, 1, 1)))
    );
    assert_eq!(
        tokenize("11111111111111111111111111"),
        Err(LexError::NotAnInteger(sp(0, 26, 1, 1)))
    );
}

#[test]
fn largest_number_lexes() {
    assert_eq!(
        tokenize("2147483647"),
        Ok(vec![Token::Num(2147483647, sp(0, 10, 1, 1))])
    );
}

#[test]
fn newline_advances_line_and_resets_column() {
    let toks = tokenize("1 +\n 2").unwrap();
    assert_eq!(
        toks,
        vec![
            Token::Num(1, sp(0, 1, 1, 1)),
            Token::Op(Op::Add, sp(2, 1, 1, 3)),
            Token::Num(2, sp(5, 1, 2, 2)),
        ]
    );
}

#[test]
fn tabs_and_carriage_returns_are_whitespace() {
    let toks = tokenize("1\t+\r\n2").unwrap();
    assert_eq!(
        toks,
        vec![
            Token::Num(1, sp(0, 1, 1, 1)),
            Token::Op(Op::Add, sp(2, 1, 1, 3)),
            Token::Num(2, sp(5, 1, 2, 1)),
        ]
    );
}

#[test]
fn parens_are_structural_tokens() {
    let toks = tokenize("(1)").unwrap();
    assert_eq!(
        toks,
        vec![
            Token::GroupOpen(sp(0, 1, 1, 1)),
            Token::Num(1, sp(1, 1, 1, 2)),
            Token::GroupClose(sp(2, 1, 1, 3)),
        ]
    );
}

#[test]
fn unmatched_open_is_reported_with_its_span() {
    assert_eq!(
        tokenize("1 + (2"),
        Err(LexError::UnmatchedParen(sp(4, 1, 1, 5)))
    );
}

#[test]
fn balanced_parens_pass_the_scan() {
    assert!(tokenize("((1))( )").is_ok());
}
