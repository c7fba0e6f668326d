//! The lexer: raw text to an ordered sequence of located tokens.
//!
//! ASCII whitespace between tokens is skipped (line and column tracking still
//! advances through it, so spans stay accurate); a maximal run of decimal
//! digits becomes a `Num` token, failing with `NotAnInteger` when it does not
//! fit an `i32`; operators are matched greedily, two-character symbols
//! (`==`, `!=`, `**`, `&&`, `||`) before the one-character ones
//! (`+ - * / !`); parentheses become flat `GroupOpen`/`GroupClose` tokens,
//! and a final scan rejects any `(` without a matching `)` as
//! `UnmatchedParen`.  Any other character is `UnexpectedChar`.
//!
//! The model is [`spec_lex`] (one token per recursion step) followed by
//! [`open_stack`] for the parenthesis check; [`tokenize`] is proved equal to
//! the composition [`spec_tokenize`].

use vstd::prelude::*;
use vstd::string::StringSliceAdditionalSpecFns;
use crate::span::{Span, span_end};
use crate::ast::{Op, Token, LexError};

verus! {

/// ASCII whitespace: space, tab, line feed, form feed, carriage return.
pub open spec fn is_space(b: u8) -> bool {
    b == 32 || b == 9 || b == 10 || b == 12 || b == 13
}

/// ASCII decimal digit.
pub open spec fn is_digit(b: u8) -> bool {
    48 <= b && b <= 57
}

/// 1-based line number of position `pos`: one more than the number of line
/// feeds strictly before it.
pub open spec fn line_at(s: Seq<u8>, pos: int) -> int
    decreases pos,
{
    if pos <= 0 {
        1
    } else {
        line_at(s, pos - 1) + if pos - 1 < s.len() && s[pos - 1] == 10 {
            1int
        } else {
            0int
        }
    }
}

/// 1-based column number of position `pos`: bytes since the last line feed.
pub open spec fn col_at(s: Seq<u8>, pos: int) -> int
    decreases pos,
{
    if pos <= 0 {
        1
    } else if pos - 1 < s.len() && s[pos - 1] == 10 {
        1
    } else {
        col_at(s, pos - 1) + 1
    }
}

/// End of the maximal digit run starting at `pos`.
pub open spec fn digit_run_end(s: Seq<u8>, pos: int) -> int
    decreases s.len() - pos,
{
    if 0 <= pos < s.len() && is_digit(s[pos]) {
        digit_run_end(s, pos + 1)
    } else {
        pos
    }
}

/// Numeric value of the digit bytes `s[start..end]`, most significant first.
pub open spec fn digits_value(s: Seq<u8>, start: int, end: int) -> int
    decreases end - start,
{
    if start >= end || end > s.len() || start < 0 {
        0
    } else {
        digits_value(s, start, end - 1) * 10 + (s[end - 1] - 48)
    }
}

/// The two-character operator symbol at `pos`, if any.
pub open spec fn op2_at(s: Seq<u8>, pos: int) -> Option<Op> {
    if 0 <= pos && pos + 2 <= s.len() {
        if s[pos] == 61 && s[pos + 1] == 61 {
            Some(Op::Eq)
        } else if s[pos] == 33 && s[pos + 1] == 61 {
            Some(Op::Neq)
        } else if s[pos] == 42 && s[pos + 1] == 42 {
            Some(Op::Pow)
        } else if s[pos] == 38 && s[pos + 1] == 38 {
            Some(Op::And)
        } else if s[pos] == 124 && s[pos + 1] == 124 {
            Some(Op::Or)
        } else {
            None
        }
    } else {
        None
    }
}

/// The one-character operator symbol `b`, if any.
pub open spec fn op1_at(b: u8) -> Option<Op> {
    if b == 43 {
        Some(Op::Add)
    } else if b == 45 {
        Some(Op::Sub)
    } else if b == 42 {
        Some(Op::Mul)
    } else if b == 47 {
        Some(Op::Div)
    } else if b == 33 {
        Some(Op::Not)
    } else {
        None
    }
}

/// A span from spec-level position arithmetic.
pub open spec fn mk_span(offset: int, len: int, line: int, col: int) -> Span {
    Span { offset: offset as usize, len: len as usize, line: line as usize, col: col as usize }
}

/// The token sequence of `s` from position `pos` on, with `line` and `col`
/// the 1-based position of `pos`; or the first lexing error.  Parenthesis
/// matching is not checked here (see [`spec_tokenize`]).
pub open spec fn spec_lex(s: Seq<u8>, pos: int, line: int, col: int) -> Result<Seq<Token>, LexError>
    decreases s.len() - pos,
{
    if pos < 0 || pos >= s.len() {
        Ok(Seq::empty())
    } else if s[pos] == 10 {
        spec_lex(s, pos + 1, line + 1, 1)
    } else if is_space(s[pos]) {
        spec_lex(s, pos + 1, line, col + 1)
    } else if is_digit(s[pos]) {
        let end0 = digit_run_end(s, pos);
        let end1 = if end0 > s.len() { s.len() as int } else { end0 };
        let end = if end1 < pos + 1 { pos + 1 } else { end1 };
        let sp = mk_span(pos, end - pos, line, col);
        if digits_value(s, pos, end) > i32::MAX {
            Err(LexError::NotAnInteger(sp))
        } else {
            match spec_lex(s, end, line, col + (end - pos)) {
                Err(e) => Err(e),
                Ok(rest) => Ok(seq![Token::Num(digits_value(s, pos, end) as i32, sp)] + rest),
            }
        }
    } else {
        match op2_at(s, pos) {
            Some(op) => match spec_lex(s, pos + 2, line, col + 2) {
                Err(e) => Err(e),
                Ok(rest) => Ok(seq![Token::Op(op, mk_span(pos, 2, line, col))] + rest),
            },
            None => match op1_at(s[pos]) {
                Some(op) => match spec_lex(s, pos + 1, line, col + 1) {
                    Err(e) => Err(e),
                    Ok(rest) => Ok(seq![Token::Op(op, mk_span(pos, 1, line, col))] + rest),
                },
                None => if s[pos] == 40 {
                    match spec_lex(s, pos + 1, line, col + 1) {
                        Err(e) => Err(e),
                        Ok(rest) => Ok(seq![Token::GroupOpen(mk_span(pos, 1, line, col))] + rest),
                    }
                } else if s[pos] == 41 {
                    match spec_lex(s, pos + 1, line, col + 1) {
                        Err(e) => Err(e),
                        Ok(rest) => Ok(seq![Token::GroupClose(mk_span(pos, 1, line, col))] + rest),
                    }
                } else {
                    Err(LexError::UnexpectedChar(mk_span(pos, 1, line, col)))
                },
            },
        }
    }
}

/// The spans of the `GroupOpen` tokens still unmatched after scanning `toks`,
/// outermost first.
pub open spec fn open_stack(toks: Seq<Token>) -> Seq<Span>
    decreases toks.len(),
{
    if toks.len() == 0 {
        Seq::empty()
    } else {
        let st = open_stack(toks.drop_last());
        match toks.last() {
            Token::GroupOpen(sp) => st.push(sp),
            Token::GroupClose(_) => if st.len() > 0 {
                st.drop_last()
            } else {
                st
            },
            _ => st,
        }
    }
}

/// The full lexing contract: the token sequence of `s`, or the first lexing
/// error; an `(` left unmatched at end of input (the innermost one) is
/// `UnmatchedParen`.
pub open spec fn spec_tokenize(s: Seq<u8>) -> Result<Seq<Token>, LexError> {
    match spec_lex(s, 0, 1, 1) {
        Err(e) => Err(e),
        Ok(toks) => {
            let st = open_stack(toks);
            if st.len() > 0 {
                Err(LexError::UnmatchedParen(st.last()))
            } else {
                Ok(toks)
            }
        },
    }
}

/// Every byte of `s[a..b]` is whitespace.
pub open spec fn all_space(s: Seq<u8>, a: int, b: int) -> bool {
    forall|i: int| a <= i < b ==> is_space(#[trigger] s[i])
}

/// The tokens tile `s` from `pos` on: each token's span is a non-empty
/// in-bounds region starting and ending on a non-space byte, consecutive
/// spans are separated by whitespace only, and only whitespace follows the
/// last one.  So the spans carry exactly where in the source each token
/// stands.
pub open spec fn tokens_tile(s: Seq<u8>, toks: Seq<Token>, pos: int) -> bool
    decreases toks.len(),
{
    if toks.len() == 0 {
        all_space(s, pos, s.len() as int)
    } else {
        let sp = toks[0].spec_span();
        &&& pos <= sp.offset
        &&& all_space(s, pos, sp.offset as int)
        &&& sp.len >= 1
        &&& span_end(sp) <= s.len()
        &&& !is_space(s[sp.offset as int])
        &&& !is_space(s[span_end(sp) - 1])
        &&& tokens_tile(s, toks.drop_first(), span_end(sp))
    }
}

/// The maximal digit run starting at `pos` is made of digits and stays in
/// bounds.
proof fn lemma_dre_digits(s: Seq<u8>, pos: int)
    requires
        0 <= pos,
    ensures
        pos <= digit_run_end(s, pos),
        pos <= s.len() ==> digit_run_end(s, pos) <= s.len(),
        forall|i: int| pos <= i < digit_run_end(s, pos) ==> is_digit(#[trigger] s[i]),
    decreases s.len() - pos,
{
    if 0 <= pos < s.len() && is_digit(s[pos]) {
        lemma_dre_digits(s, pos + 1);
    }
}

/// A successful lex produces tokens that tile the input from the start
/// position on.
pub proof fn lemma_lex_tile(s: Seq<u8>, pos: int, line: int, col: int)
    requires
        0 <= pos,
        s.len() <= usize::MAX,
    ensures
        match spec_lex(s, pos, line, col) {
            Ok(toks) => tokens_tile(s, toks, pos),
            Err(_) => true,
        },
    decreases s.len() - pos,
{
    if pos >= s.len() {
    } else if s[pos] == 10 {
        lemma_lex_tile(s, pos + 1, line + 1, 1);
    } else if is_space(s[pos]) {
        lemma_lex_tile(s, pos + 1, line, col + 1);
    } else if is_digit(s[pos]) {
        lemma_dre_digits(s, pos);
        let end0 = digit_run_end(s, pos);
        let end1 = if end0 > s.len() { s.len() as int } else { end0 };
        let end = if end1 < pos + 1 { pos + 1 } else { end1 };
        if digits_value(s, pos, end) <= i32::MAX {
            lemma_lex_tile(s, end, line, col + (end - pos));
            match spec_lex(s, end, line, col + (end - pos)) {
                Ok(rest) => {
                    let sp = mk_span(pos, end - pos, line, col);
                    let toks = seq![Token::Num(digits_value(s, pos, end) as i32, sp)] + rest;
                    assert(toks.drop_first() =~= rest);
                    assert(is_digit(s[end - 1]));
                    assert(tokens_tile(s, toks, pos));
                },
                Err(_) => {},
            }
        }
    } else {
        match op2_at(s, pos) {
            Some(op) => {
                lemma_lex_tile(s, pos + 2, line, col + 2);
                match spec_lex(s, pos + 2, line, col + 2) {
                    Ok(rest) => {
                        let sp = mk_span(pos, 2, line, col);
                        let toks = seq![Token::Op(op, sp)] + rest;
                        assert(toks.drop_first() =~= rest);
                        assert(tokens_tile(s, toks, pos));
                    },
                    Err(_) => {},
                }
            },
            None => {
                if op1_at(s[pos]) is Some || s[pos] == 40 || s[pos] == 41 {
                    lemma_lex_tile(s, pos + 1, line, col + 1);
                    match spec_lex(s, pos + 1, line, col + 1) {
                        Ok(rest) => {
                            let sp = mk_span(pos, 1, line, col);
                            let tok = if s[pos] == 40 {
                                Token::GroupOpen(sp)
                            } else if s[pos] == 41 {
                                Token::GroupClose(sp)
                            } else {
                                Token::Op(op1_at(s[pos])->Some_0, sp)
                            };
                            let toks = seq![tok] + rest;
                            assert(toks.drop_first() =~= rest);
                            assert(tokens_tile(s, toks, pos));
                        },
                        Err(_) => {},
                    }
                }
            },
        }
    }
}

/// Every token's span carries the 1-based line and column of its own offset.
pub open spec fn spans_positioned(s: Seq<u8>, toks: Seq<Token>) -> bool {
    forall|i: int|
        0 <= i < toks.len() ==> (#[trigger] toks[i].spec_span()).line == line_at(
            s,
            toks[i].spec_span().offset as int,
        ) && toks[i].spec_span().col == col_at(s, toks[i].spec_span().offset as int)
}

/// Line and column numbers are 1-based and bounded by the position.
proof fn lemma_pos_bounds(s: Seq<u8>, pos: int)
    requires
        0 <= pos,
    ensures
        1 <= line_at(s, pos) <= pos + 1,
        1 <= col_at(s, pos) <= pos + 1,
    decreases pos,
{
    if pos > 0 {
        lemma_pos_bounds(s, pos - 1);
    }
}

/// Advancing over bytes without a line feed keeps the line and moves the
/// column by the distance.
proof fn lemma_pos_advance(s: Seq<u8>, a: int, b: int)
    requires
        0 <= a <= b <= s.len(),
        forall|i: int| a <= i < b ==> s[i] != 10,
    ensures
        line_at(s, b) == line_at(s, a),
        col_at(s, b) == col_at(s, a) + (b - a),
    decreases b - a,
{
    if a < b {
        lemma_pos_advance(s, a, b - 1);
        assert(s[b - 1] != 10);
    }
}

/// A successful lex seeded with the true line and column of its start
/// position produces tokens whose spans carry the true line and column of
/// their own offsets.
pub proof fn lemma_lex_positions(s: Seq<u8>, pos: int, line: int, col: int)
    requires
        0 <= pos,
        s.len() <= usize::MAX,
        line == line_at(s, pos),
        col == col_at(s, pos),
    ensures
        match spec_lex(s, pos, line, col) {
            Ok(toks) => spans_positioned(s, toks),
            Err(_) => true,
        },
    decreases s.len() - pos,
{
    lemma_pos_bounds(s, pos);
    if pos >= s.len() {
    } else if s[pos] == 10 {
        lemma_lex_positions(s, pos + 1, line + 1, 1);
    } else if is_space(s[pos]) {
        lemma_lex_positions(s, pos + 1, line, col + 1);
    } else if is_digit(s[pos]) {
        lemma_dre_digits(s, pos);
        let end0 = digit_run_end(s, pos);
        let end1 = if end0 > s.len() { s.len() as int } else { end0 };
        let end = if end1 < pos + 1 { pos + 1 } else { end1 };
        if digits_value(s, pos, end) <= i32::MAX {
            lemma_pos_advance(s, pos, end);
            lemma_lex_positions(s, end, line, col + (end - pos));
            match spec_lex(s, end, line, col + (end - pos)) {
                Ok(rest) => {
                    let sp = mk_span(pos, end - pos, line, col);
                    let toks = seq![Token::Num(digits_value(s, pos, end) as i32, sp)] + rest;
                    assert forall|i: int| 0 <= i < toks.len() implies (
                    #[trigger] toks[i].spec_span()).line == line_at(
                        s,
                        toks[i].spec_span().offset as int,
                    ) && toks[i].spec_span().col == col_at(s, toks[i].spec_span().offset as int) by {
                        if i > 0 {
                            assert(toks[i] == rest[i - 1]);
                        }
                    }
                },
                Err(_) => {},
            }
        }
    } else {
        match op2_at(s, pos) {
            Some(op) => {
                lemma_pos_advance(s, pos, pos + 2);
                lemma_lex_positions(s, pos + 2, line, col + 2);
                match spec_lex(s, pos + 2, line, col + 2) {
                    Ok(rest) => {
                        let toks = seq![Token::Op(op, mk_span(pos, 2, line, col))] + rest;
                        assert forall|i: int| 0 <= i < toks.len() implies (
                        #[trigger] toks[i].spec_span()).line == line_at(
                            s,
                            toks[i].spec_span().offset as int,
                        ) && toks[i].spec_span().col == col_at(
                            s,
                            toks[i].spec_span().offset as int,
                        ) by {
                            if i > 0 {
                                assert(toks[i] == rest[i - 1]);
                            }
                        }
                    },
                    Err(_) => {},
                }
            },
            None => {
                if op1_at(s[pos]) is Some || s[pos] == 40 || s[pos] == 41 {
                    lemma_pos_advance(s, pos, pos + 1);
                    lemma_lex_positions(s, pos + 1, line, col + 1);
                    match spec_lex(s, pos + 1, line, col + 1) {
                        Ok(rest) => {
                            let sp = mk_span(pos, 1, line, col);
                            let tok = if s[pos] == 40 {
                                Token::GroupOpen(sp)
                            } else if s[pos] == 41 {
                                Token::GroupClose(sp)
                            } else {
                                Token::Op(op1_at(s[pos])->Some_0, sp)
                            };
                            let toks = seq![tok] + rest;
                            assert forall|i: int| 0 <= i < toks.len() implies (
                            #[trigger] toks[i].spec_span()).line == line_at(
                                s,
                                toks[i].spec_span().offset as int,
                            ) && toks[i].spec_span().col == col_at(
                                s,
                                toks[i].spec_span().offset as int,
                            ) by {
                                if i > 0 {
                                    assert(toks[i] == rest[i - 1]);
                                }
                            }
                        },
                        Err(_) => {},
                    }
                }
            },
        }
    }
}

/// The zero-length span of the end of input, for diagnostics that point past
/// the last token.
pub open spec fn spec_eof_span(s: Seq<u8>) -> Span {
    mk_span(s.len() as int, 0, line_at(s, s.len() as int), col_at(s, s.len() as int))
}

/// The 1-based line and column just past the end of the input, as a
/// zero-length span.
pub fn end_span(b: &[u8]) -> (sp: Span)
    requires
        b@.len() < usize::MAX,
    ensures
        sp == spec_eof_span(b@),
{
    let n = b.len();
    let mut line: usize = 1;
    let mut col: usize = 1;
    let mut i: usize = 0;
    while i < n
        invariant
            n == b@.len(),
            n < usize::MAX,
            i <= n,
            1 <= line <= i + 1,
            1 <= col <= i + 1,
            line == line_at(b@, i as int),
            col == col_at(b@, i as int),
        decreases n - i,
    {
        if b[i] == 10 {
            line = line + 1;
            col = 1;
        } else {
            col = col + 1;
        }
        i = i + 1;
    }
    Span { offset: n, len: 0, line, col }
}

/// Lexing from `(pos, line, col)` with `done` already produced reaches the
/// overall result `goal`.
spec fn lex_continues(
    s: Seq<u8>,
    done: Seq<Token>,
    pos: int,
    line: int,
    col: int,
    goal: Result<Seq<Token>, LexError>,
) -> bool {
    goal == match spec_lex(s, pos, line, col) {
        Ok(rest) => Ok::<Seq<Token>, LexError>(done + rest),
        Err(e) => Err::<Seq<Token>, LexError>(e),
    }
}

fn is_space_byte(c: u8) -> (r: bool)
    ensures
        r == is_space(c),
{
    c == 32 || c == 9 || c == 10 || c == 12 || c == 13
}

fn op2(b: &[u8], pos: usize) -> (r: Option<Op>)
    requires
        pos < b@.len(),
    ensures
        r == op2_at(b@, pos as int),
{
    if b.len() - pos >= 2 {
        let c0 = b[pos];
        let c1 = b[pos + 1];
        if c0 == 61 && c1 == 61 {
            Some(Op::Eq)
        } else if c0 == 33 && c1 == 61 {
            Some(Op::Neq)
        } else if c0 == 42 && c1 == 42 {
            Some(Op::Pow)
        } else if c0 == 38 && c1 == 38 {
            Some(Op::And)
        } else if c0 == 124 && c1 == 124 {
            Some(Op::Or)
        } else {
            None
        }
    } else {
        None
    }
}

fn op1(c: u8) -> (r: Option<Op>)
    ensures
        r == op1_at(c),
{
    if c == 43 {
        Some(Op::Add)
    } else if c == 45 {
        Some(Op::Sub)
    } else if c == 42 {
        Some(Op::Mul)
    } else if c == 47 {
        Some(Op::Div)
    } else if c == 33 {
        Some(Op::Not)
    } else {
        None
    }
}

/// Turns the bytes into tokens, one pass left to right, spec'd by
/// [`spec_lex`] from the start position.
fn lex_bytes(b: &[u8]) -> (r: Result<Vec<Token>, LexError>)
    requires
        b@.len() < usize::MAX,
    ensures
        match r {
            Ok(toks) => spec_lex(b@, 0, 1, 1) == Ok::<Seq<Token>, LexError>(toks@),
            Err(e) => spec_lex(b@, 0, 1, 1) == Err::<Seq<Token>, LexError>(e),
        },
{
    let n = b.len();
    let mut toks: Vec<Token> = Vec::new();
    let mut pos: usize = 0;
    let mut line: usize = 1;
    let mut col: usize = 1;
    proof {
        let g = spec_lex(b@, 0, 1, 1);
        if let Ok(rest) = g {
            assert(Seq::<Token>::empty() + rest =~= rest);
        }
    }
    while pos < n
        invariant
            n == b@.len(),
            n < usize::MAX,
            pos <= n,
            1 <= line <= pos + 1,
            1 <= col <= pos + 1,
            lex_continues(b@, toks@, pos as int, line as int, col as int, spec_lex(b@, 0, 1, 1)),
        decreases n - pos,
    {
        let ghost goal = spec_lex(b@, 0, 1, 1);
        let ghost pos0 = pos as int;
        let ghost line0 = line as int;
        let ghost col0 = col as int;
        let ghost done0 = toks@;
        let c = b[pos];
        if c == 10 {
            pos = pos + 1;
            line = line + 1;
            col = 1;
            proof {
                assert(spec_lex(b@, pos0, line0, col0) == spec_lex(b@, pos0 + 1, line0 + 1, 1));
            }
        } else if is_space_byte(c) {
            pos = pos + 1;
            col = col + 1;
            proof {
                assert(spec_lex(b@, pos0, line0, col0) == spec_lex(b@, pos0 + 1, line0, col0 + 1));
            }
        } else if 48 <= c && c <= 57 {
            let start = pos;
            let mut acc: u64 = (c - 48) as u64;
            let mut over = false;
            pos = pos + 1;
            proof {
                assert(digits_value(b@, start as int, start as int) == 0);
                assert(digits_value(b@, start as int, start as int + 1) == c - 48);
            }
            while pos < n && 48 <= b[pos] && b[pos] <= 57
                invariant
                    n == b@.len(),
                    start < pos <= n,
                    forall|i: int| start <= i < pos ==> is_digit(b@[i]),
                    digit_run_end(b@, start as int) == digit_run_end(b@, pos as int),
                    !over ==> acc == digits_value(b@, start as int, pos as int) && acc
                        <= i32::MAX,
                    over ==> digits_value(b@, start as int, pos as int) > i32::MAX,
                decreases n - pos,
            {
                let d = (b[pos] - 48) as u64;
                proof {
                    assert(digits_value(b@, start as int, pos as int + 1) == digits_value(
                        b@,
                        start as int,
                        pos as int,
                    ) * 10 + d);
                }
                if !over {
                    acc = acc * 10 + d;
                    if acc > 2147483647 {
                        over = true;
                    }
                }
                pos = pos + 1;
            }
            proof {
                assert(digit_run_end(b@, pos as int) == pos as int);
                assert(is_digit(b@[start as int]));
            }
            let sp = Span { offset: start, len: pos - start, line, col };
            proof {
                assert(sp == mk_span(start as int, pos - start, line0, col0));
            }
            if over {
                proof {
                    assert(spec_lex(b@, start as int, line0, col0) == Err::<Seq<Token>, LexError>(
                        LexError::NotAnInteger(sp),
                    ));
                }
                return Err(LexError::NotAnInteger(sp));
            }
            let tok = Token::Num(acc as i32, sp);
            toks.push(tok);
            col = col + (pos - start);
            proof {
                assert(toks@ =~= done0.push(tok));
                let srest = spec_lex(b@, pos as int, line as int, col as int);
                assert(spec_lex(b@, start as int, line0, col0) == match srest {
                    Err(e) => Err::<Seq<Token>, LexError>(e),
                    Ok(rest) => Ok::<Seq<Token>, LexError>(seq![tok] + rest),
                });
                if let Ok(rest) = srest {
                    assert(done0 + (seq![tok] + rest) =~= done0.push(tok) + rest);
                }
            }
        } else {
            match op2(b, pos) {
                Some(op) => {
                    let tok = Token::Op(op, Span { offset: pos, len: 2, line, col });
                    toks.push(tok);
                    pos = pos + 2;
                    col = col + 2;
                    proof {
                        assert(toks@ =~= done0.push(tok));
                        let srest = spec_lex(b@, pos as int, line as int, col as int);
                        assert(spec_lex(b@, pos0, line0, col0) == match srest {
                            Err(e) => Err::<Seq<Token>, LexError>(e),
                            Ok(rest) => Ok::<Seq<Token>, LexError>(seq![tok] + rest),
                        });
                        if let Ok(rest) = srest {
                            assert(done0 + (seq![tok] + rest) =~= done0.push(tok) + rest);
                        }
                    }
                },
                None => {
                    let sp = Span { offset: pos, len: 1, line, col };
                    let tok_opt = match op1(c) {
                        Some(op) => Some(Token::Op(op, sp)),
                        None => if c == 40 {
                            Some(Token::GroupOpen(sp))
                        } else if c == 41 {
                            Some(Token::GroupClose(sp))
                        } else {
                            None
                        },
                    };
                    match tok_opt {
                        Some(tok) => {
                            toks.push(tok);
                            pos = pos + 1;
                            col = col + 1;
                            proof {
                                assert(toks@ =~= done0.push(tok));
                                let srest = spec_lex(b@, pos as int, line as int, col as int);
                                assert(spec_lex(b@, pos0, line0, col0) == match srest {
                                    Err(e) => Err::<Seq<Token>, LexError>(e),
                                    Ok(rest) => Ok::<Seq<Token>, LexError>(seq![tok] + rest),
                                });
                                if let Ok(rest) = srest {
                                    assert(done0 + (seq![tok] + rest) =~= done0.push(tok) + rest);
                                }
                            }
                        },
                        None => {
                            return Err(LexError::UnexpectedChar(sp));
                        },
                    }
                },
            }
        }
    }
    proof {
        assert(toks@ + Seq::<Token>::empty() =~= toks@);
    }
    Ok(toks)
}

/// Scans the tokens for an `(` without a matching `)`, returning the span of
/// the innermost such `(`, spec'd by [`open_stack`].
fn check_balance(toks: &Vec<Token>) -> (r: Option<Span>)
    ensures
        match r {
            Some(sp) => open_stack(toks@).len() > 0 && sp == open_stack(toks@).last(),
            None => open_stack(toks@).len() == 0,
        },
{
    let mut stack: Vec<Span> = Vec::new();
    let mut i: usize = 0;
    proof {
        assert(toks@.take(0) =~= Seq::<Token>::empty());
    }
    while i < toks.len()
        invariant
            i <= toks@.len(),
            stack@ == open_stack(toks@.take(i as int)),
        decreases toks@.len() - i,
    {
        proof {
            assert(toks@.take(i + 1).drop_last() =~= toks@.take(i as int));
            assert(toks@.take(i + 1).last() == toks@[i as int]);
        }
        match toks[i] {
            Token::GroupOpen(sp) => {
                stack.push(sp);
            },
            Token::GroupClose(_) => {
                if stack.len() > 0 {
                    stack.pop();
                }
            },
            _ => {},
        }
        i = i + 1;
    }
    proof {
        assert(toks@.take(toks@.len() as int) =~= toks@);
    }
    if stack.len() > 0 {
        Some(stack[stack.len() - 1])
    } else {
        None
    }
}

/// Lexes `source` into tokens with accurate spans, or reports the first
/// lexing error, spec'd by [`spec_tokenize`] over the source bytes.
pub fn tokenize(source: &str) -> (r: Result<Vec<Token>, LexError>)
    requires
        source.spec_bytes().len() < usize::MAX,
    ensures
        match r {
            Ok(toks) => spec_tokenize(source.spec_bytes()) == Ok::<Seq<Token>, LexError>(toks@),
            Err(e) => spec_tokenize(source.spec_bytes()) == Err::<Seq<Token>, LexError>(e),
        },
{
    let b = source.as_bytes();
    match lex_bytes(b) {
        Err(e) => Err(e),
        Ok(toks) => match check_balance(&toks) {
            Some(sp) => Err(LexError::UnmatchedParen(sp)),
            None => Ok(toks),
        },
    }
}

} // verus!
