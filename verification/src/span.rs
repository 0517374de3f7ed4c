//! Source positions attached to tokens.
use vstd::prelude::*;
use crate::text::{concat, decimal_digits, string_of, usize_to_string};

verus! {

/// A token's extent in the source: `start..end` counted in characters,
/// plus the 1-based line and column of its first character.
#[derive(Debug, Clone, Copy, PartialEq, Eq)]
pub struct Span {
    pub start: usize,
    pub end: usize,
    pub line: usize,
    pub column: usize,
}

impl Span {
    pub fn new(start: usize, end: usize, line: usize, column: usize) -> (r: Self)
        ensures
            r.start == start,
            r.end == end,
            r.line == line,
            r.column == column,
    {
        Span { start, end, line, column }
    }
}

/// The text `{:?}` gives for a span.
pub open spec fn span_debug(s: Span) -> Seq<char> {
    "Span { start: "@ + decimal_digits(s.start as nat) + ", end: "@ + decimal_digits(s.end as nat)
        + ", line: "@ + decimal_digits(s.line as nat) + ", column: "@ + decimal_digits(
        s.column as nat,
    ) + " }"@
}

impl Span {
    /// The span as `{:?}` writes it.
    pub fn debug_text(&self) -> (r: String)
        ensures
            r@ == span_debug(*self),
    {
        let t = concat(&string_of("Span { start: "), usize_to_string(self.start).as_str());
        let t = concat(&t, ", end: ");
        let t = concat(&t, usize_to_string(self.end).as_str());
        let t = concat(&t, ", line: ");
        let t = concat(&t, usize_to_string(self.line).as_str());
        let t = concat(&t, ", column: ");
        let t = concat(&t, usize_to_string(self.column).as_str());
        concat(&t, " }")
    }
}

} // verus!
