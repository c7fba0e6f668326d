//! A small-language expression engine: a span-tracking lexer, an
//! operator-precedence ("precedence-climbing") parser, and an evaluator over
//! 32-bit signed integers with explicit overflow and division semantics.
//!
//! Data flows text -> [`lexer::tokenize`] -> tokens -> [`parser::parse`]
//! (consulting the [`prec`] table) -> [`ast::Expr`] -> [`eval::evaluate`] ->
//! value or error.  Every stage is specified by a spec-level model and the
//! executable code is proved equal to it.

use vstd::prelude::*;
use vstd::string::StringSliceAdditionalSpecFns;

pub mod span;
pub mod ast;
pub mod prec;
pub mod eval;
pub mod lexer;
pub mod parser;
pub mod laws;

use crate::ast::{Expr, ParseError};
use crate::lexer::{spec_tokenize, spec_eof_span, tokenize, end_span};
use crate::parser::{spec_parse, parse};
use crate::laws::lemma_tokenize_wf;

verus! {

/// What parsing a source text yields: its tokens climbed into a tree, or the
/// first error — a lexing error wrapped in `ParseError::Lex`, or a parse
/// error over the token sequence.
pub open spec fn spec_parse_expression(s: Seq<u8>) -> Result<Expr, ParseError> {
    match spec_tokenize(s) {
        Err(le) => Err(ParseError::Lex(le)),
        Ok(toks) => spec_parse(toks, spec_eof_span(s)),
    }
}

/// Lexes and parses `source` into a span-annotated expression tree, spec'd
/// by [`spec_parse_expression`] over the source bytes.
pub fn parse_expression(source: &str) -> (r: Result<Expr, ParseError>)
    requires
        source.spec_bytes().len() < usize::MAX,
    ensures
        r == spec_parse_expression(source.spec_bytes()),
{
    let b = source.as_bytes();
    let eof = end_span(b);
    match tokenize(source) {
        Err(le) => Err(ParseError::Lex(le)),
        Ok(toks) => {
            proof {
                lemma_tokenize_wf(source.spec_bytes());
            }
            parse(&toks, eof)
        },
    }
}

} // verus!
