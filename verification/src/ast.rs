//! The data model shared by lexer, parser and evaluator: operator kinds,
//! tokens, the expression tree, and the error taxonomy.

use vstd::prelude::*;
use crate::span::{Span, encloses, span_end};

verus! {

/// An operator kind.  `Eq`, `Neq`, `And`, `Or` and `Not` are recognized by the
/// lexer and accepted by the parser, but carry no evaluation semantics yet:
/// the evaluator reports them as `EvalError::Unsupported`.
#[derive(Clone, Copy, Debug, PartialEq, Eq, Structural)]
pub enum Op {
    Eq,
    Neq,
    And,
    Or,
    Add,
    Sub,
    Mul,
    Div,
    Pow,
    Not,
}

/// A lexed token.  Parentheses are kept as flat structural delimiters; the
/// parser balances them (the lexer has already checked that every `(` has a
/// matching `)`).
#[derive(Clone, Copy, Debug, PartialEq, Eq, Structural)]
pub enum Token {
    /// A decimal integer literal.
    Num(i32, Span),
    /// An operator symbol.
    Op(Op, Span),
    /// An opening parenthesis.
    GroupOpen(Span),
    /// A closing parenthesis.
    GroupClose(Span),
}

impl Token {
    /// The source region the token covers.
    pub open spec fn spec_span(self) -> Span {
        match self {
            Token::Num(_, sp) => sp,
            Token::Op(_, sp) => sp,
            Token::GroupOpen(sp) => sp,
            Token::GroupClose(sp) => sp,
        }
    }

    /// The source region the token covers.
    pub fn span(&self) -> (sp: Span)
        ensures
            sp == self.spec_span(),
    {
        match self {
            Token::Num(_, sp) => *sp,
            Token::Op(_, sp) => *sp,
            Token::GroupOpen(sp) => *sp,
            Token::GroupClose(sp) => *sp,
        }
    }
}

/// An expression tree node.  Every node carries the span of the sub-source it
/// was parsed from; a parent's span encloses the spans of all its children.
#[derive(Debug, PartialEq)]
pub enum Expr {
    /// An integer literal.
    Num(i32, Span),
    /// An explicitly parenthesized sub-expression.  Kept (not collapsed) so
    /// the original grouping can be reconstructed; evaluates like its inner
    /// expression.  Its span runs from the `(` to the `)`.
    Par(Box<Expr>, Span),
    /// A binary operator applied to two operands.
    BinOp(Op, Box<Expr>, Box<Expr>, Span),
    /// A prefix operator applied to one operand.
    UnaryOp(Op, Box<Expr>, Span),
}

impl Expr {
    /// The source region the node covers.
    pub open spec fn spec_span(self) -> Span {
        match self {
            Expr::Num(_, sp) => sp,
            Expr::Par(_, sp) => sp,
            Expr::BinOp(_, _, _, sp) => sp,
            Expr::UnaryOp(_, _, sp) => sp,
        }
    }

    /// The source region the node covers.
    pub fn span(&self) -> (sp: Span)
        ensures
            sp == self.spec_span(),
    {
        match self {
            Expr::Num(_, sp) => *sp,
            Expr::Par(_, sp) => *sp,
            Expr::BinOp(_, _, _, sp) => *sp,
            Expr::UnaryOp(_, _, sp) => *sp,
        }
    }
}

/// Every node's span encloses the spans of all its children, so any
/// sub-expression can be highlighted inside its parent's source region.
pub open spec fn wf_spans(e: Expr) -> bool
    decreases e,
{
    match e {
        Expr::Num(_, _) => true,
        Expr::Par(inner, sp) => wf_spans(*inner) && encloses(sp, inner.spec_span()),
        Expr::UnaryOp(_, inner, sp) => wf_spans(*inner) && encloses(sp, inner.spec_span()),
        Expr::BinOp(_, l, r, sp) => wf_spans(*l) && wf_spans(*r) && encloses(sp, l.spec_span())
            && encloses(sp, r.spec_span()),
    }
}

/// Every binary node's span is exactly the union of its children's regions:
/// it starts where the left child starts and ends where the right child
/// ends.  (A `Par` or `UnaryOp` node's span also covers its punctuation, so
/// only its child is constrained.)
pub open spec fn spans_joined(e: Expr) -> bool
    decreases e,
{
    match e {
        Expr::Num(_, _) => true,
        Expr::Par(inner, _) => spans_joined(*inner),
        Expr::UnaryOp(_, inner, _) => spans_joined(*inner),
        Expr::BinOp(_, l, r, sp) => spans_joined(*l) && spans_joined(*r) && sp.offset
            == l.spec_span().offset && span_end(sp) == span_end(r.spec_span()),
    }
}

/// An error found while turning source text into tokens.
#[derive(Clone, Copy, Debug, PartialEq, Eq, Structural)]
pub enum LexError {
    /// A run of digits does not fit a 32-bit signed integer.
    NotAnInteger(Span),
    /// A `(` (at the carried span) has no matching `)` before end of input.
    UnmatchedParen(Span),
    /// A character that starts no number, operator or parenthesis.
    UnexpectedChar(Span),
}

/// An error found while parsing a token sequence.
#[derive(Clone, Copy, Debug, PartialEq, Eq, Structural)]
pub enum ParseError {
    /// A token (or end of input, with a zero-length span) where the grammar
    /// allows none.
    UnexpectedToken(Span),
    /// A complete expression was parsed but tokens remain; the span is that
    /// of the first leftover token.
    TrailingInput(Span),
    /// The expression nests deeper than the fixed recursion limit.
    MaxDepthExceeded(Span),
    /// Tokenization itself failed.
    Lex(LexError),
}

/// An error found while evaluating an expression.
#[derive(Clone, Copy, Debug, PartialEq, Eq, Structural)]
pub enum EvalError {
    /// The right operand of `/` evaluated to zero.
    DivisionByZero(Span),
    /// The right operand of `**` evaluated to a negative number.
    NegativeExponent(Span),
    /// An arithmetic result does not fit a 32-bit signed integer.
    Overflow(Span),
    /// The operator is parsed but has no evaluation semantics yet.
    Unsupported(Op, Span),
}

} // verus!
