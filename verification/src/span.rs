//! Source locations.
//!
//! A `Span` identifies a contiguous byte region of the original source text:
//! its byte offset, its byte length, and the 1-based line and column of its
//! first byte.  Spans are created by the lexer, threaded read-only through the
//! parser, and serve diagnostics only; evaluation never depends on them.

use vstd::prelude::*;

verus! {

/// A contiguous region of the source text, with the 1-based line and column
/// of its first byte.
#[derive(Clone, Copy, Debug, PartialEq, Eq, Structural)]
pub struct Span {
    /// Byte offset of the first byte of the region.
    pub offset: usize,
    /// Length of the region in bytes.
    pub len: usize,
    /// 1-based line number of the first byte.
    pub line: usize,
    /// 1-based column number of the first byte.
    pub col: usize,
}

/// One past the last byte of the region.
pub open spec fn span_end(s: Span) -> int {
    s.offset + s.len
}

/// `outer` covers at least the region of `inner`.
pub open spec fn encloses(outer: Span, inner: Span) -> bool {
    outer.offset <= inner.offset && span_end(inner) <= span_end(outer)
}

/// The smallest span starting where `a` starts and ending where `b` ends.
/// Used to attach to a parent node the union of its children's regions, so
/// line and column are taken from the left (earlier) child.
pub open spec fn spec_join(a: Span, b: Span) -> Span {
    Span { offset: a.offset, len: (span_end(b) - a.offset) as usize, line: a.line, col: a.col }
}

/// Joins two spans where `a` starts no later than `b` ends.
pub fn join(a: Span, b: Span) -> (r: Span)
    requires
        a.offset <= span_end(b),
        span_end(b) <= usize::MAX,
    ensures
        r == spec_join(a, b),
{
    Span { offset: a.offset, len: b.offset + b.len - a.offset, line: a.line, col: a.col }
}

} // verus!
