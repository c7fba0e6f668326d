//! The precedence-climbing parser: a flat token sequence to a span-annotated
//! expression tree.
//!
//! Two mutually recursive parts thread a cursor over the tokens:
//! [`compute_atom`] consumes exactly one atomic unit (a number, a
//! parenthesized group reparsed from the lowest level, or a prefix operator
//! followed by an operand at [`UNARY_PREC`]); [`climb`] parses an atom and
//! then folds in binary operators whose precedence is at least the current
//! minimum, giving the right-hand recursive call `precedence + 1` for a
//! left-associative operator and `precedence` for a right-associative one.
//! Recursion depth is capped at [`MAX_DEPTH`], failing with
//! `MaxDepthExceeded` instead of exhausting the stack on pathologically
//! nested input.
//!
//! The model is [`spec_atom`], [`spec_climb`] and [`spec_iter`] (the loop of
//! `climb` as a recursion); the executable functions are proved equal to it.

use vstd::prelude::*;
use crate::span::{Span, span_end, spec_join, join};
use crate::ast::{Op, Token, Expr, ParseError, wf_spans, spans_joined};
use crate::prec::{Ass, UNARY_PREC, spec_infix_prec, infix_prec, spec_unary_capable, unary_capable};

verus! {

/// The parser rejects expressions whose recursive structure nests deeper
/// than this, so parsing cannot exhaust the call stack.
pub const MAX_DEPTH: usize = 64;

/// Token spans fit the machine word and appear in source order: what the
/// lexer produces (see `lexer::tokenize`), and what the parser's span
/// bookkeeping relies on.
pub open spec fn wf_token_spans(toks: Seq<Token>) -> bool {
    &&& forall|i: int|
        0 <= i < toks.len() ==> span_end(#[trigger] toks[i].spec_span()) <= usize::MAX
    &&& forall|i: int, j: int|
        0 <= i < j < toks.len() ==> span_end(#[trigger] toks[i].spec_span()) <= (
        #[trigger] toks[j].spec_span()).offset
}

/// The span of the token at `pos`, or the end-of-input span.
pub open spec fn spec_cur_span(toks: Seq<Token>, pos: int, eof: Span) -> Span {
    if 0 <= pos < toks.len() {
        toks[pos].spec_span()
    } else {
        eof
    }
}

/// The binding strength of the outermost construct of `e`: the table
/// precedence of a top-level binary operator, [`UNARY_PREC`] for a prefix
/// operator, and above everything for literals and parenthesized groups.
pub open spec fn top_prec(e: Expr) -> int {
    match e {
        Expr::BinOp(op, _, _, _) => match spec_infix_prec(op) {
            Some((p, _)) => p as int,
            None => UNARY_PREC + 1,
        },
        Expr::UnaryOp(_, _, _) => UNARY_PREC as int,
        _ => UNARY_PREC + 1,
    }
}

/// The precedence and associativity discipline of a parsed tree: each binary
/// node's left child binds at least as tightly as the node itself, and its
/// right child binds strictly tighter for a left-associative operator (so
/// equal-precedence chains group left) and at least as tightly for a
/// right-associative one (so they group right); a prefix operator's operand
/// binds at least at [`UNARY_PREC`].
pub open spec fn assoc_wf(e: Expr) -> bool
    decreases e,
{
    match e {
        Expr::Num(_, _) => true,
        Expr::Par(inner, _) => assoc_wf(*inner),
        Expr::UnaryOp(_, inner, _) => assoc_wf(*inner) && top_prec(*inner) >= UNARY_PREC,
        Expr::BinOp(op, l, r, _) => {
            &&& assoc_wf(*l)
            &&& assoc_wf(*r)
            &&& match spec_infix_prec(op) {
                Some((p, a)) => top_prec(*l) >= p && top_prec(*r) >= (
                if a == Ass::Left {
                    p + 1
                } else {
                    p as int
                }),
                None => false,
            }
        },
    }
}

/// One atomic unit starting at `pos`: the parsed expression and the position
/// just after it, or the first parse error.
pub open spec fn spec_atom(toks: Seq<Token>, pos: int, eof: Span, fuel: nat) -> Result<
    (Expr, int),
    ParseError,
>
    decreases fuel, 0nat,
{
    if fuel == 0 {
        Err(ParseError::MaxDepthExceeded(spec_cur_span(toks, pos, eof)))
    } else if pos < 0 || pos >= toks.len() {
        Err(ParseError::UnexpectedToken(eof))
    } else {
        match toks[pos] {
            Token::Num(v, sp) => Ok((Expr::Num(v, sp), pos + 1)),
            Token::GroupOpen(sp) => match spec_climb(toks, pos + 1, 0, eof, (fuel - 1) as nat) {
                Err(e) => Err(e),
                Ok((inner, p2)) => if 0 <= p2 < toks.len() && toks[p2] is GroupClose {
                    Ok(
                        (
                            Expr::Par(Box::new(inner), spec_join(sp, toks[p2].spec_span())),
                            p2 + 1,
                        ),
                    )
                } else {
                    Err(ParseError::UnexpectedToken(spec_cur_span(toks, p2, eof)))
                },
            },
            Token::GroupClose(sp) => Err(ParseError::UnexpectedToken(sp)),
            Token::Op(op, sp) => if spec_unary_capable(op) {
                match spec_climb(toks, pos + 1, UNARY_PREC, eof, (fuel - 1) as nat) {
                    Err(e) => Err(e),
                    Ok((operand, p2)) => Ok(
                        (
                            Expr::UnaryOp(
                                op,
                                Box::new(operand),
                                spec_join(sp, operand.spec_span()),
                            ),
                            p2,
                        ),
                    ),
                }
            } else {
                Err(ParseError::UnexpectedToken(sp))
            },
        }
    }
}

/// The largest expression starting at `pos` whose binary operators all bind
/// at least at `min_prec`: an atom, then [`spec_iter`] folds in operators.
pub open spec fn spec_climb(toks: Seq<Token>, pos: int, min_prec: u8, eof: Span, fuel: nat) -> Result<
    (Expr, int),
    ParseError,
>
    decreases fuel, toks.len() + 2,
{
    if fuel == 0 {
        Err(ParseError::MaxDepthExceeded(spec_cur_span(toks, pos, eof)))
    } else {
        match spec_atom(toks, pos, eof, fuel) {
            Err(e) => Err(e),
            Ok((lhs, p)) => spec_iter(toks, p, min_prec, lhs, eof, fuel, toks.len()),
        }
    }
}

/// The fold step of climbing: while the token at `pos` is a binary operator
/// of precedence at least `min_prec`, consume it, parse its right operand one
/// level up (for left associativity) or at the same level (for right), and
/// extend `lhs`; `k` only bounds the number of steps, and one step always
/// consumes at least one token, so it never runs out before the tokens do.
pub open spec fn spec_iter(
    toks: Seq<Token>,
    pos: int,
    min_prec: u8,
    lhs: Expr,
    eof: Span,
    fuel: nat,
    k: nat,
) -> Result<(Expr, int), ParseError>
    decreases fuel, k,
{
    if k == 0 || fuel == 0 {
        Err(ParseError::MaxDepthExceeded(spec_cur_span(toks, pos, eof)))
    } else if 0 <= pos < toks.len() {
        match toks[pos] {
            Token::Op(op, _) => match spec_infix_prec(op) {
                Some((prec, ass)) => if prec >= min_prec {
                    let next_min = if ass == Ass::Left {
                        (prec + 1) as u8
                    } else {
                        prec
                    };
                    match spec_climb(toks, pos + 1, next_min, eof, (fuel - 1) as nat) {
                        Err(e) => Err(e),
                        Ok((rhs, p2)) => spec_iter(
                            toks,
                            p2,
                            min_prec,
                            Expr::BinOp(
                                op,
                                Box::new(lhs),
                                Box::new(rhs),
                                spec_join(lhs.spec_span(), rhs.spec_span()),
                            ),
                            eof,
                            fuel,
                            (k - 1) as nat,
                        ),
                    }
                } else {
                    Ok((lhs, pos))
                },
                None => Ok((lhs, pos)),
            },
            _ => Ok((lhs, pos)),
        }
    } else {
        Ok((lhs, pos))
    }
}

/// The token at `pos` (if any) cannot be consumed as a binary operator at
/// `min_prec`: where a finished climb stops.
pub open spec fn stops_at(toks: Seq<Token>, pos: int, min_prec: u8) -> bool {
    0 <= pos < toks.len() ==> match toks[pos] {
        Token::Op(op, _) => match spec_infix_prec(op) {
            Some((q, _)) => q < min_prec,
            None => true,
        },
        _ => true,
    }
}

/// If the token at `pos` is a binary operator consumable at `min_prec`, then
/// `lhs` binds at least as tightly as it: the invariant that makes the fold
/// in [`spec_iter`] build left-leaning chains.
pub open spec fn lhs_dominates(toks: Seq<Token>, pos: int, min_prec: u8, lhs: Expr) -> bool {
    0 <= pos < toks.len() ==> match toks[pos] {
        Token::Op(op, _) => match spec_infix_prec(op) {
            Some((q, _)) => q >= min_prec ==> top_prec(lhs) >= q,
            None => true,
        },
        _ => true,
    }
}

/// A successful [`spec_atom`] consumes at least one token and yields a tree
/// whose spans nest, whose span runs from the first consumed token to the
/// last, and whose outermost construct binds at least at [`UNARY_PREC`].
pub proof fn lemma_atom_props(toks: Seq<Token>, pos: int, eof: Span, fuel: nat)
    requires
        wf_token_spans(toks),
    ensures
        match spec_atom(toks, pos, eof, fuel) {
            Ok((e, p)) => {
                &&& 0 <= pos < p <= toks.len()
                &&& wf_spans(e)
                &&& spans_joined(e)
                &&& assoc_wf(e)
                &&& top_prec(e) >= UNARY_PREC as int
                &&& e.spec_span().offset == toks[pos].spec_span().offset
                &&& e.spec_span().line == toks[pos].spec_span().line
                &&& e.spec_span().col == toks[pos].spec_span().col
                &&& span_end(e.spec_span()) == span_end(toks[p - 1].spec_span())
            },
            Err(_) => true,
        },
    decreases fuel, 0nat,
{
    if fuel > 0 && 0 <= pos < toks.len() {
        match toks[pos] {
            Token::Num(_, _) => {},
            Token::GroupClose(_) => {},
            Token::GroupOpen(sp) => {
                lemma_climb_props(toks, pos + 1, 0, eof, (fuel - 1) as nat);
                match spec_climb(toks, pos + 1, 0, eof, (fuel - 1) as nat) {
                    Ok((inner, p2)) => {
                        if 0 <= p2 < toks.len() && toks[p2] is GroupClose {
                            let spc = toks[p2].spec_span();
                            assert(span_end(toks[pos].spec_span()) <= toks[pos + 1].spec_span().offset);
                            assert(span_end(toks[p2 - 1].spec_span()) <= spc.offset);
                            if pos < p2 - 1 {
                                assert(span_end(toks[pos].spec_span()) <= toks[p2 - 1].spec_span().offset);
                            }
                            assert(span_end(spc) <= usize::MAX);
                        }
                    },
                    Err(_) => {},
                }
            },
            Token::Op(op, sp) => {
                if spec_unary_capable(op) {
                    lemma_climb_props(toks, pos + 1, UNARY_PREC, eof, (fuel - 1) as nat);
                    match spec_climb(toks, pos + 1, UNARY_PREC, eof, (fuel - 1) as nat) {
                        Ok((operand, p2)) => {
                            assert(span_end(toks[pos].spec_span()) <= toks[pos + 1].spec_span().offset);
                            if pos < p2 - 1 {
                                assert(span_end(toks[pos].spec_span()) <= toks[p2 - 1].spec_span().offset);
                            }
                            assert(span_end(toks[p2 - 1].spec_span()) <= usize::MAX);
                        },
                        Err(_) => {},
                    }
                }
            },
        }
    }
}

/// A successful [`spec_climb`] consumes at least one token, yields a tree
/// with nested spans covering exactly the consumed tokens, respecting the
/// precedence floor and the associativity discipline, and stops at a token
/// it may not consume.
pub proof fn lemma_climb_props(toks: Seq<Token>, pos: int, min_prec: u8, eof: Span, fuel: nat)
    requires
        wf_token_spans(toks),
        min_prec <= UNARY_PREC,
    ensures
        match spec_climb(toks, pos, min_prec, eof, fuel) {
            Ok((e, p)) => {
                &&& 0 <= pos < p <= toks.len()
                &&& wf_spans(e)
                &&& spans_joined(e)
                &&& assoc_wf(e)
                &&& top_prec(e) >= min_prec as int
                &&& e.spec_span().offset == toks[pos].spec_span().offset
                &&& e.spec_span().line == toks[pos].spec_span().line
                &&& e.spec_span().col == toks[pos].spec_span().col
                &&& span_end(e.spec_span()) == span_end(toks[p - 1].spec_span())
                &&& stops_at(toks, p, min_prec)
            },
            Err(_) => true,
        },
    decreases fuel, toks.len() + 2,
{
    if fuel > 0 {
        lemma_atom_props(toks, pos, eof, fuel);
        match spec_atom(toks, pos, eof, fuel) {
            Ok((lhs, p)) => {
                lemma_iter_props(toks, p, min_prec, lhs, eof, fuel, toks.len(), pos);
            },
            Err(_) => {},
        }
    }
}

/// The fold of [`spec_iter`] preserves the climbing invariants: given a left
/// operand covering tokens `lo..pos` that dominates the operator ahead, the
/// result covers `lo..p`, keeps spans nested and associativity intact, and
/// stops at a token below `min_prec`.
pub proof fn lemma_iter_props(
    toks: Seq<Token>,
    pos: int,
    min_prec: u8,
    lhs: Expr,
    eof: Span,
    fuel: nat,
    k: nat,
    lo: int,
)
    requires
        wf_token_spans(toks),
        min_prec <= UNARY_PREC,
        0 <= lo < pos <= toks.len(),
        wf_spans(lhs),
        spans_joined(lhs),
        assoc_wf(lhs),
        top_prec(lhs) >= min_prec as int,
        lhs_dominates(toks, pos, min_prec, lhs),
        lhs.spec_span().offset == toks[lo].spec_span().offset,
        lhs.spec_span().line == toks[lo].spec_span().line,
        lhs.spec_span().col == toks[lo].spec_span().col,
        span_end(lhs.spec_span()) == span_end(toks[pos - 1].spec_span()),
    ensures
        match spec_iter(toks, pos, min_prec, lhs, eof, fuel, k) {
            Ok((e, p)) => {
                &&& lo < pos <= p <= toks.len()
                &&& wf_spans(e)
                &&& spans_joined(e)
                &&& assoc_wf(e)
                &&& top_prec(e) >= min_prec as int
                &&& e.spec_span().offset == toks[lo].spec_span().offset
                &&& e.spec_span().line == toks[lo].spec_span().line
                &&& e.spec_span().col == toks[lo].spec_span().col
                &&& span_end(e.spec_span()) == span_end(toks[p - 1].spec_span())
                &&& stops_at(toks, p, min_prec)
            },
            Err(_) => true,
        },
    decreases fuel, k,
{
    if k > 0 && fuel > 0 && 0 <= pos < toks.len() {
        match toks[pos] {
            Token::Op(op, _) => match spec_infix_prec(op) {
                Some((prec, ass)) => {
                    if prec >= min_prec {
                        let next_min = if ass == Ass::Left {
                            (prec + 1) as u8
                        } else {
                            prec
                        };
                        lemma_climb_props(toks, pos + 1, next_min, eof, (fuel - 1) as nat);
                        match spec_climb(toks, pos + 1, next_min, eof, (fuel - 1) as nat) {
                            Ok((rhs, p2)) => {
                                let nsp = spec_join(lhs.spec_span(), rhs.spec_span());
                                let nlhs = Expr::BinOp(op, Box::new(lhs), Box::new(rhs), nsp);
                                assert(span_end(toks[p2 - 1].spec_span()) <= usize::MAX);
                                assert(span_end(toks[lo].spec_span()) <= toks[pos].spec_span().offset);
                                if lo < p2 - 1 {
                                    assert(span_end(toks[lo].spec_span()) <= toks[p2 - 1].spec_span().offset);
                                }
                                assert(span_end(toks[pos - 1].spec_span()) <= toks[pos].spec_span().offset);
                                assert(span_end(toks[pos].spec_span()) <= toks[pos + 1].spec_span().offset);
                                assert(span_end(nsp) == span_end(rhs.spec_span()));
                                assert(wf_spans(nlhs));
                                assert(assoc_wf(nlhs));
                                assert(top_prec(nlhs) == prec as int);
                                lemma_iter_props(toks, p2, min_prec, nlhs, eof, fuel, (k - 1) as nat, lo);
                            },
                            Err(_) => {},
                        }
                    }
                },
                None => {},
            },
            _ => {},
        }
    }
}

/// The top-level parsing contract: climb from the lowest precedence with the
/// full depth budget, then reject leftover tokens as `TrailingInput` — a
/// partial parse is never silently accepted.
pub open spec fn spec_parse(toks: Seq<Token>, eof: Span) -> Result<Expr, ParseError> {
    match spec_climb(toks, 0, 0, eof, MAX_DEPTH as nat) {
        Err(e) => Err(e),
        Ok((e, p)) => if p < toks.len() {
            Err(ParseError::TrailingInput(spec_cur_span(toks, p, eof)))
        } else {
            Ok(e)
        },
    }
}

fn cur_span(toks: &Vec<Token>, pos: usize, eof: Span) -> (sp: Span)
    ensures
        sp == spec_cur_span(toks@, pos as int, eof),
{
    if pos < toks.len() {
        let t = toks[pos];
        t.span()
    } else {
        eof
    }
}

/// Consumes exactly one atomic unit at `pos`: a number literal, a
/// parenthesized group reparsed from the lowest precedence and wrapped in
/// `Par`, or a prefix operator applied to an operand parsed at
/// [`UNARY_PREC`].  A binary-only operator, a stray `)`, or end of input is
/// `UnexpectedToken`; `eof` is the zero-length end-of-input span used when
/// there is no token to point at.  Spec'd by [`spec_atom`].
pub fn compute_atom(toks: &Vec<Token>, pos: usize, eof: Span, fuel: usize) -> (r: Result<
    (Expr, usize),
    ParseError,
>)
    requires
        pos <= toks@.len(),
        wf_token_spans(toks@),
    ensures
        match r {
            Ok((e, p)) => spec_atom(toks@, pos as int, eof, fuel as nat) == Ok::<
                (Expr, int),
                ParseError,
            >((e, p as int)) && pos < p <= toks@.len(),
            Err(er) => spec_atom(toks@, pos as int, eof, fuel as nat) == Err::<
                (Expr, int),
                ParseError,
            >(er),
        },
    decreases fuel, 0nat,
{
    if fuel == 0 {
        return Err(ParseError::MaxDepthExceeded(cur_span(toks, pos, eof)));
    }
    if pos >= toks.len() {
        return Err(ParseError::UnexpectedToken(eof));
    }
    match toks[pos] {
        Token::Num(v, sp) => Ok((Expr::Num(v, sp), pos + 1)),
        Token::GroupOpen(sp) => {
            match climb(toks, pos + 1, 0, eof, fuel - 1) {
                Err(e) => Err(e),
                Ok((inner, p2)) => {
                    if p2 < toks.len() {
                        match toks[p2] {
                            Token::GroupClose(sp2) => {
                                proof {
                                    assert(span_end(toks@[pos as int].spec_span()) <= toks@[p2 as int].spec_span().offset);
                                }
                                Ok((Expr::Par(Box::new(inner), join(sp, sp2)), p2 + 1))
                            },
                            _ => Err(ParseError::UnexpectedToken(cur_span(toks, p2, eof))),
                        }
                    } else {
                        Err(ParseError::UnexpectedToken(eof))
                    }
                },
            }
        },
        Token::GroupClose(sp) => Err(ParseError::UnexpectedToken(sp)),
        Token::Op(op, sp) => {
            if unary_capable(&op) {
                match climb(toks, pos + 1, UNARY_PREC, eof, fuel - 1) {
                    Err(e) => Err(e),
                    Ok((operand, p2)) => {
                        proof {
                            lemma_climb_props(
                                toks@,
                                pos as int + 1,
                                UNARY_PREC,
                                eof,
                                (fuel - 1) as nat,
                            );
                            assert(span_end(toks@[pos as int].spec_span()) <= toks@[pos as int + 1].spec_span().offset);
                            if (pos as int) < p2 - 1 {
                                assert(span_end(toks@[pos as int].spec_span()) <= toks@[p2 - 1].spec_span().offset);
                            }
                            assert(span_end(toks@[p2 - 1].spec_span()) <= usize::MAX);
                        }
                        let osp = operand.span();
                        Ok((Expr::UnaryOp(op, Box::new(operand), join(sp, osp)), p2))
                    },
                }
            } else {
                Err(ParseError::UnexpectedToken(sp))
            }
        },
    }
}

/// Parses the largest expression starting at `pos` whose binary operators
/// all bind at least at `min_prec`: one atom, then a loop that, while the
/// next token is a binary operator of sufficient precedence, consumes it,
/// parses the right operand at `precedence + 1` (left-associative) or
/// `precedence` (right-associative), and folds the result into the left
/// operand.  Spec'd by [`spec_climb`].
pub fn climb(toks: &Vec<Token>, pos: usize, min_prec: u8, eof: Span, fuel: usize) -> (r: Result<
    (Expr, usize),
    ParseError,
>)
    requires
        pos <= toks@.len(),
        wf_token_spans(toks@),
    ensures
        match r {
            Ok((e, p)) => spec_climb(toks@, pos as int, min_prec, eof, fuel as nat) == Ok::<
                (Expr, int),
                ParseError,
            >((e, p as int)) && pos < p <= toks@.len(),
            Err(er) => spec_climb(toks@, pos as int, min_prec, eof, fuel as nat) == Err::<
                (Expr, int),
                ParseError,
            >(er),
        },
    decreases fuel, toks@.len() + 2,
{
    if fuel == 0 {
        return Err(ParseError::MaxDepthExceeded(cur_span(toks, pos, eof)));
    }
    let (mut lhs, mut p) = match compute_atom(toks, pos, eof, fuel) {
        Err(e) => {
            return Err(e);
        },
        Ok(v) => v,
    };
    let ghost f1 = fuel as nat;
    proof {
        lemma_atom_props(toks@, pos as int, eof, f1);
    }
    let mut k: usize = toks.len();
    loop
        invariant
            wf_token_spans(toks@),
            fuel >= 1,
            f1 == fuel as nat,
            pos < p <= toks@.len(),
            k <= toks@.len(),
            lhs.spec_span().offset == toks@[pos as int].spec_span().offset,
            span_end(lhs.spec_span()) == span_end(toks@[p - 1].spec_span()),
            spec_iter(toks@, p as int, min_prec, lhs, eof, f1, k as nat) == spec_climb(
                toks@,
                pos as int,
                min_prec,
                eof,
                f1,
            ),
        ensures
            spec_climb(toks@, pos as int, min_prec, eof, f1) == Ok::<(Expr, int), ParseError>(
                (lhs, p as int),
            ),
            pos < p <= toks@.len(),
        decreases k,
    {
        if k == 0 {
            return Err(ParseError::MaxDepthExceeded(cur_span(toks, p, eof)));
        }
        if p >= toks.len() {
            break;
        }
        match toks[p] {
            Token::Op(op, _) => {
                match infix_prec(&op) {
                    Some((prec, ass)) => {
                        if prec >= min_prec {
                            let next_min = if ass == Ass::Left {
                                prec + 1
                            } else {
                                prec
                            };
                            match climb(toks, p + 1, next_min, eof, fuel - 1) {
                                Err(e) => {
                                    return Err(e);
                                },
                                Ok((rhs, p2)) => {
                                    let ghost p_old = p as int;
                                    let ghost k_old = k as nat;
                                    let ghost lhs_old = lhs;
                                    proof {
                                        lemma_climb_props(
                                            toks@,
                                            p as int + 1,
                                            next_min,
                                            eof,
                                            (fuel - 1) as nat,
                                        );
                                        assert(span_end(toks@[pos as int].spec_span()) <= toks@[p as int].spec_span().offset);
                                        if (pos as int) < p2 - 1 {
                                            assert(span_end(toks@[pos as int].spec_span()) <= toks@[p2 - 1].spec_span().offset);
                                        }
                                        assert(span_end(toks@[p2 - 1].spec_span()) <= usize::MAX);
                                    }
                                    let lsp = lhs.span();
                                    let rsp = rhs.span();
                                    let nsp = join(lsp, rsp);
                                    lhs = Expr::BinOp(op, Box::new(lhs), Box::new(rhs), nsp);
                                    p = p2;
                                    k = k - 1;
                                    proof {
                                        assert(spec_iter(
                                            toks@,
                                            p_old,
                                            min_prec,
                                            lhs_old,
                                            eof,
                                            f1,
                                            k_old,
                                        ) == spec_iter(
                                            toks@,
                                            p as int,
                                            min_prec,
                                            lhs,
                                            eof,
                                            f1,
                                            k as nat,
                                        ));
                                    }
                                },
                            }
                        } else {
                            break;
                        }
                    },
                    None => {
                        break;
                    },
                }
            },
            _ => {
                break;
            },
        }
    }
    Ok((lhs, p))
}

/// Parses a complete token sequence into an expression: climbs from the
/// lowest precedence with the full depth budget and rejects leftover tokens
/// as `TrailingInput`.  `eof` is the zero-length end-of-input span reported
/// when input ends where a token was required.  Spec'd by [`spec_parse`].
pub fn parse(toks: &Vec<Token>, eof: Span) -> (r: Result<Expr, ParseError>)
    requires
        wf_token_spans(toks@),
    ensures
        r == spec_parse(toks@, eof),
{
    match climb(toks, 0, 0, eof, MAX_DEPTH) {
        Err(e) => Err(e),
        Ok((e, p)) => {
            if p < toks.len() {
                Err(ParseError::TrailingInput(cur_span(toks, p, eof)))
            } else {
                Ok(e)
            }
        },
    }
}

} // verus!
