//! Laws of the engine, stated and proved once over the spec-level models
//! that every executable function's contract refers to: grouping is
//! semantically transparent, division by zero is reported exactly when the
//! right operand is zero, prefix operators outbind every binary operator, a
//! decimal numeral parses to its own value spanning the whole input, and the
//! spans of a parsed tree nest and cover exactly the trimmed input region.

use vstd::prelude::*;
use crate::span::{Span, span_end, spec_join};
use crate::ast::{Op, Token, Expr, LexError, ParseError, EvalError, wf_spans, spans_joined};
use crate::prec::{Ass, UNARY_PREC, spec_infix_prec, spec_get_prec};
use crate::eval::spec_eval;
use crate::lexer::{
    is_space,
    is_digit,
    digit_run_end,
    digits_value,
    line_at,
    col_at,
    spec_lex,
    open_stack,
    spec_tokenize,
    all_space,
    tokens_tile,
    lemma_lex_tile,
    spans_positioned,
    lemma_lex_positions,
    spec_eof_span,
};
use crate::parser::{MAX_DEPTH, wf_token_spans, spec_climb, lemma_climb_props, assoc_wf};
use crate::spec_parse_expression;

verus! {

/// Grouping has no semantic effect: evaluating `Par(e)` is evaluating `e`,
/// whatever the attached span.
pub proof fn lemma_paren_transparent(e: Expr, sp: Span)
    ensures
        spec_eval(Expr::Par(Box::new(e), sp)) == spec_eval(e),
{
}

/// A division whose operands evaluate, the right one to zero, fails with
/// `DivisionByZero` at the node's span.
pub proof fn lemma_division_by_zero(l: Expr, r: Expr, sp: Span)
    requires
        spec_eval(l) is Ok,
        spec_eval(r) == Ok::<i32, EvalError>(0i32),
    ensures
        spec_eval(Expr::BinOp(Op::Div, Box::new(l), Box::new(r), sp)) == Err::<i32, EvalError>(
            EvalError::DivisionByZero(sp),
        ),
{
}

/// A prefix operator binds strictly tighter than every binary operator: the
/// infix level of any operator lies below [`UNARY_PREC`], so a prefix
/// operator always captures the tightest possible operand.
pub proof fn lemma_unary_binds_tightest(op: Op, p: u8, a: Ass)
    requires
        spec_infix_prec(op) == Some::<(u8, Ass)>((p, a)),
    ensures
        p < UNARY_PREC,
{
}

/// Tokens that tile the source have spans that fit the machine word and
/// stand in source order, and nothing but whitespace lies before the first
/// token or after the last.
pub proof fn lemma_tile_wf(s: Seq<u8>, toks: Seq<Token>, pos: int)
    requires
        0 <= pos,
        s.len() <= usize::MAX,
        tokens_tile(s, toks, pos),
    ensures
        wf_token_spans(toks),
        forall|i: int|
            0 <= i < toks.len() ==> pos <= (#[trigger] toks[i].spec_span()).offset && span_end(
                toks[i].spec_span(),
            ) <= s.len(),
        toks.len() == 0 ==> all_space(s, pos, s.len() as int),
        toks.len() > 0 ==> {
            &&& all_space(s, pos, toks[0].spec_span().offset as int)
            &&& !is_space(s[toks[0].spec_span().offset as int])
            &&& toks[toks.len() - 1].spec_span().len >= 1
            &&& all_space(s, span_end(toks[toks.len() - 1].spec_span()), s.len() as int)
            &&& !is_space(s[span_end(toks[toks.len() - 1].spec_span()) - 1])
        },
    decreases toks.len(),
{
    if toks.len() > 0 {
        let sp = toks[0].spec_span();
        lemma_tile_wf(s, toks.drop_first(), span_end(sp));
        if toks.len() > 1 {
            assert(toks[toks.len() - 1] == toks.drop_first()[toks.len() - 2]);
        }
        assert forall|i: int| 0 <= i < toks.len() implies pos <= (
        #[trigger] toks[i].spec_span()).offset && span_end(toks[i].spec_span()) <= s.len() by {
            if i > 0 {
                assert(toks[i] == toks.drop_first()[i - 1]);
            }
        }
        assert forall|i: int, j: int| 0 <= i < j < toks.len() implies span_end(
            #[trigger] toks[i].spec_span(),
        ) <= (#[trigger] toks[j].spec_span()).offset by {
            assert(toks[j] == toks.drop_first()[j - 1]);
            if i > 0 {
                assert(toks[i] == toks.drop_first()[i - 1]);
            }
        }
    }
}

/// What the lexer produces satisfies the span discipline the parser relies
/// on.
pub proof fn lemma_tokenize_wf(s: Seq<u8>)
    requires
        s.len() <= usize::MAX,
    ensures
        match spec_tokenize(s) {
            Ok(toks) => wf_token_spans(toks),
            Err(_) => true,
        },
{
    lemma_lex_tile(s, 0, 1, 1);
    match spec_lex(s, 0, 1, 1) {
        Ok(toks) => {
            lemma_tile_wf(s, toks, 0);
        },
        Err(_) => {},
    }
}

/// Every token of a successful tokenization carries the true 1-based line
/// and column of its own source offset.
pub proof fn lemma_tokenize_positions(s: Seq<u8>)
    requires
        s.len() <= usize::MAX,
    ensures
        match spec_tokenize(s) {
            Ok(toks) => spans_positioned(s, toks),
            Err(_) => true,
        },
{
    lemma_lex_positions(s, 0, 1, 1);
}

/// Span coverage of a parse: the tree's spans nest, binary nodes' spans are
/// the union of their children's, the precedence and associativity
/// discipline holds, and the root span is exactly the trimmed input region
/// consumed — only whitespace lies outside it, and it starts and ends on a
/// non-space byte.
pub proof fn lemma_parse_expression_covers(s: Seq<u8>)
    requires
        s.len() <= usize::MAX,
    ensures
        match spec_parse_expression(s) {
            Ok(e) => {
                &&& wf_spans(e)
                &&& spans_joined(e)
                &&& assoc_wf(e)
                &&& e.spec_span().len >= 1
                &&& span_end(e.spec_span()) <= s.len()
                &&& all_space(s, 0, e.spec_span().offset as int)
                &&& !is_space(s[e.spec_span().offset as int])
                &&& all_space(s, span_end(e.spec_span()), s.len() as int)
                &&& !is_space(s[span_end(e.spec_span()) - 1])
                &&& e.spec_span().line == line_at(s, e.spec_span().offset as int)
                &&& e.spec_span().col == col_at(s, e.spec_span().offset as int)
            },
            Err(_) => true,
        },
{
    lemma_lex_tile(s, 0, 1, 1);
    lemma_lex_positions(s, 0, 1, 1);
    match spec_lex(s, 0, 1, 1) {
        Ok(toks) => {
            lemma_tile_wf(s, toks, 0);
            if open_stack(toks).len() == 0 {
                let eof = spec_eof_span(s);
                lemma_climb_props(toks, 0, 0, eof, MAX_DEPTH as nat);
                match spec_climb(toks, 0, 0, eof, MAX_DEPTH as nat) {
                    Ok((e, p)) => {
                        if p >= toks.len() {
                            assert(span_end(toks[0].spec_span()) <= span_end(
                                toks[p - 1].spec_span(),
                            )) by {
                                if 0 < p - 1 {
                                    assert(span_end(toks[0].spec_span())
                                        <= toks[p - 1].spec_span().offset);
                                }
                            }
                        }
                    },
                    Err(_) => {},
                }
            }
        },
        Err(_) => {},
    }
}

/// The tree uses only operators with evaluation semantics: `Add`, `Sub`,
/// `Mul`, `Div` and `Pow` in binary position, `Add` and `Sub` in prefix
/// position.
pub open spec fn arith_only(e: Expr) -> bool
    decreases e,
{
    match e {
        Expr::Num(_, _) => true,
        Expr::Par(inner, _) => arith_only(*inner),
        Expr::UnaryOp(op, inner, _) => (op == Op::Add || op == Op::Sub) && arith_only(*inner),
        Expr::BinOp(op, l, r, _) => spec_get_prec(op) is Some && arith_only(*l) && arith_only(
            *r,
        ),
    }
}

/// The evaluator is total over trees free of the reserved operators: it may
/// report an arithmetic error, but never `Unsupported`.
pub proof fn lemma_eval_total_on_arith(e: Expr)
    requires
        arith_only(e),
    ensures
        match spec_eval(e) {
            Err(er) => !(er is Unsupported),
            Ok(_) => true,
        },
    decreases e,
{
    match e {
        Expr::Num(_, _) => {},
        Expr::Par(inner, _) => {
            lemma_eval_total_on_arith(*inner);
        },
        Expr::UnaryOp(_, inner, _) => {
            lemma_eval_total_on_arith(*inner);
        },
        Expr::BinOp(_, l, r, _) => {
            lemma_eval_total_on_arith(*l);
            lemma_eval_total_on_arith(*r);
        },
    }
}

/// The start of the leftmost number literal in the tree.
pub open spec fn min_leaf_offset(e: Expr) -> int
    decreases e,
{
    match e {
        Expr::Num(_, sp) => sp.offset as int,
        Expr::Par(inner, _) => min_leaf_offset(*inner),
        Expr::UnaryOp(_, inner, _) => min_leaf_offset(*inner),
        Expr::BinOp(_, l, r, _) => {
            let a = min_leaf_offset(*l);
            let b = min_leaf_offset(*r);
            if a <= b {
                a
            } else {
                b
            }
        },
    }
}

/// The end of the rightmost number literal in the tree.
pub open spec fn max_leaf_end(e: Expr) -> int
    decreases e,
{
    match e {
        Expr::Num(_, sp) => span_end(sp),
        Expr::Par(inner, _) => max_leaf_end(*inner),
        Expr::UnaryOp(_, inner, _) => max_leaf_end(*inner),
        Expr::BinOp(_, l, r, _) => {
            let a = max_leaf_end(*l);
            let b = max_leaf_end(*r);
            if a >= b {
                a
            } else {
                b
            }
        },
    }
}

/// A tree of number literals and binary operators only: no parentheses or
/// prefix operators, whose punctuation lies in no leaf's span.
pub open spec fn plain_arith(e: Expr) -> bool
    decreases e,
{
    match e {
        Expr::Num(_, _) => true,
        Expr::BinOp(_, l, r, _) => plain_arith(*l) && plain_arith(*r),
        _ => false,
    }
}

/// In a tree of literals and binary nodes with nested, union-exact spans,
/// the union of the leaf spans is the root's span: it runs from the first
/// leaf's start to the last leaf's end.
pub proof fn lemma_leaf_hull(e: Expr)
    requires
        wf_spans(e),
        spans_joined(e),
        plain_arith(e),
    ensures
        min_leaf_offset(e) == e.spec_span().offset,
        max_leaf_end(e) == span_end(e.spec_span()),
    decreases e,
{
    match e {
        Expr::BinOp(_, l, r, sp) => {
            lemma_leaf_hull(*l);
            lemma_leaf_hull(*r);
        },
        _ => {},
    }
}

/// Digit bytes agreeing on a range have the same numeric value there.
proof fn lemma_digits_value_agree(s: Seq<u8>, t: Seq<u8>, start: int, end: int)
    requires
        0 <= start,
        end <= s.len(),
        end <= t.len(),
        forall|i: int| start <= i < end ==> s[i] == t[i],
    ensures
        digits_value(s, start, end) == digits_value(t, start, end),
    decreases end - start,
{
    if start < end {
        lemma_digits_value_agree(s, t, start, end - 1);
    }
}

/// Prepending one byte shifts the value range of the digits after it.
proof fn lemma_digits_value_shift(t: Seq<u8>, c: u8, end: int)
    requires
        0 <= end <= t.len(),
    ensures
        digits_value(seq![c] + t, 1, end + 1) == digits_value(t, 0, end),
    decreases end,
{
    if end > 0 {
        lemma_digits_value_shift(t, c, end - 1);
    }
}

/// A sequence of digits is one maximal run.
proof fn lemma_dre_all_digits(s: Seq<u8>, pos: int)
    requires
        0 <= pos <= s.len(),
        forall|i: int| pos <= i < s.len() ==> is_digit(#[trigger] s[i]),
    ensures
        digit_run_end(s, pos) == s.len(),
    decreases s.len() - pos,
{
    if pos < s.len() {
        lemma_dre_all_digits(s, pos + 1);
    }
}

/// The decimal numeral of `n`, most significant digit first.
pub open spec fn dec_digits(n: int) -> Seq<u8>
    recommends
        0 <= n,
    decreases n,
{
    if n <= 9 {
        seq![(48 + (if 0 <= n { n } else { 0 })) as u8]
    } else {
        dec_digits(n / 10).push((48 + n % 10) as u8)
    }
}

/// The numeral of `n` is non-empty, all digits, not absurdly long, and its
/// digits read back as `n`.
proof fn lemma_dec_digits_value(n: int)
    requires
        0 <= n,
    ensures
        ({
            let s = dec_digits(n);
            &&& 1 <= s.len() <= n + 1
            &&& forall|i: int| 0 <= i < s.len() ==> is_digit(#[trigger] s[i])
            &&& digits_value(s, 0, s.len() as int) == n
        }),
    decreases n,
{
    let s = dec_digits(n);
    if n <= 9 {
        assert(digits_value(s, 0, 0) == 0);
        assert(digits_value(s, 0, 1) == s[0] - 48);
    } else {
        lemma_dec_digits_value(n / 10);
        let s0 = dec_digits(n / 10);
        lemma_digits_value_agree(s0, s, 0, s0.len() as int);
        assert(digits_value(s, 0, s.len() as int) == digits_value(s, 0, s.len() - 1) * 10 + (
        s[s.len() - 1] - 48));
    }
}

/// A decimal numeral parses to its own number literal spanning the whole
/// input, and evaluates to itself.  (The greatest representable magnitude
/// aside, a negative number's numeral parses to a negation of this literal:
/// see [`lemma_parse_negative_numeral`].)
pub proof fn lemma_parse_numeral(n: int)
    requires
        0 <= n <= i32::MAX,
    ensures
        ({
            let s = dec_digits(n);
            let sp = Span { offset: 0, len: s.len() as usize, line: 1, col: 1 };
            &&& spec_parse_expression(s) == Ok::<Expr, ParseError>(Expr::Num(n as i32, sp))
            &&& spec_eval(Expr::Num(n as i32, sp)) == Ok::<i32, EvalError>(n as i32)
        }),
{
    let s = dec_digits(n);
    lemma_dec_digits_value(n);
    lemma_dre_all_digits(s, 0);
    let sp = Span { offset: 0, len: s.len() as usize, line: 1, col: 1 };
    let tok = Token::Num(n as i32, sp);
    assert(spec_lex(s, s.len() as int, 1, 1 + s.len() as int) == Ok::<Seq<Token>, LexError>(
        Seq::empty(),
    ));
    assert(seq![tok] + Seq::<Token>::empty() =~= seq![tok]);
    assert(spec_lex(s, 0, 1, 1) == Ok::<Seq<Token>, LexError>(seq![tok]));
    assert(seq![tok].drop_last() =~= Seq::<Token>::empty());
    assert(open_stack(Seq::<Token>::empty()) =~= Seq::<Span>::empty());
    assert(open_stack(seq![tok]) =~= Seq::<Span>::empty());
    let eof = spec_eof_span(s);
    let toks = seq![tok];
    assert(spec_climb(toks, 0, 0, eof, MAX_DEPTH as nat) == Ok::<(Expr, int), ParseError>(
        (Expr::Num(n as i32, sp), 1),
    ));
}

/// The numeral of a negative number: a minus sign before the magnitude's
/// digits.
pub open spec fn dec_repr(n: int) -> Seq<u8> {
    if n < 0 {
        seq![45u8] + dec_digits(-n)
    } else {
        dec_digits(n)
    }
}

/// A negative number's numeral parses to a unary negation of the magnitude's
/// literal, spanning the whole input, and still evaluates to the number
/// itself.
pub proof fn lemma_parse_negative_numeral(n: int)
    requires
        i32::MIN < n < 0,
    ensures
        ({
            let s = dec_repr(n);
            let sp_op = Span { offset: 0, len: 1, line: 1, col: 1 };
            let sp_num = Span { offset: 1, len: (s.len() - 1) as usize, line: 1, col: 2 };
            let sp_all = Span { offset: 0, len: s.len() as usize, line: 1, col: 1 };
            let num = Expr::Num((-n) as i32, sp_num);
            let e = Expr::UnaryOp(Op::Sub, Box::new(num), sp_all);
            &&& spec_parse_expression(s) == Ok::<Expr, ParseError>(e)
            &&& spec_eval(e) == Ok::<i32, EvalError>(n as i32)
        }),
{
    let s = dec_repr(n);
    let d = dec_digits(-n);
    lemma_dec_digits_value(-n);
    assert forall|i: int| 1 <= i < s.len() implies is_digit(#[trigger] s[i]) by {
        assert(0 <= i - 1 < d.len());
        assert(s[i] == d[i - 1]);
    }
    lemma_dre_all_digits(s, 1);
    lemma_digits_value_shift(d, 45u8, d.len() as int);
    assert(digits_value(s, 1, s.len() as int) == -n);
    let sp_op = Span { offset: 0, len: 1, line: 1, col: 1 };
    let sp_num = Span { offset: 1, len: (s.len() - 1) as usize, line: 1, col: 2 };
    let sp_all = Span { offset: 0, len: s.len() as usize, line: 1, col: 1 };
    let t0 = Token::Op(Op::Sub, sp_op);
    let t1 = Token::Num((-n) as i32, sp_num);
    assert(spec_lex(s, s.len() as int, 1, 2 + (s.len() - 1) as int) == Ok::<Seq<Token>, LexError>(
        Seq::empty(),
    ));
    assert(seq![t1] + Seq::<Token>::empty() =~= seq![t1]);
    assert(spec_lex(s, 1, 1, 2) == Ok::<Seq<Token>, LexError>(seq![t1]));
    assert(seq![t0] + seq![t1] =~= seq![t0, t1]);
    assert(spec_lex(s, 0, 1, 1) == Ok::<Seq<Token>, LexError>(seq![t0, t1]));
    let toks = seq![t0, t1];
    assert(toks.drop_last() =~= seq![t0]);
    assert(seq![t0].drop_last() =~= Seq::<Token>::empty());
    assert(open_stack(Seq::<Token>::empty()) =~= Seq::<Span>::empty());
    assert(open_stack(seq![t0]) =~= Seq::<Span>::empty());
    assert(open_stack(toks) =~= Seq::<Span>::empty());
    let eof = spec_eof_span(s);
    let num = Expr::Num((-n) as i32, sp_num);
    assert(spec_climb(toks, 1, UNARY_PREC, eof, (MAX_DEPTH - 1) as nat) == Ok::<
        (Expr, int),
        ParseError,
    >((num, 2)));
    assert(spec_join(sp_op, sp_num) == sp_all);
    let e = Expr::UnaryOp(Op::Sub, Box::new(num), sp_all);
    assert(spec_climb(toks, 0, 0, eof, MAX_DEPTH as nat) == Ok::<(Expr, int), ParseError>((e, 2)));
    assert(spec_eval(num) == Ok::<i32, EvalError>((-n) as i32));
}

} // verus!
