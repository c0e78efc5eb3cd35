//! Coordinates: half-open byte ranges and locations in a source file.

use vstd::prelude::*;

verus! {

/// A half-open interval `[start, end)` of byte offsets.
pub type Range = core::ops::Range<usize>;

/// A location in a source file: a line and a range of byte columns in it.
#[derive(Debug, PartialEq, Eq)]
pub struct Span {
    /// The number of the line, as the source of the lines counts them.
    pub line: usize,
    /// The byte columns within that line.
    pub range: Range,
}

/// Whether `next` lies behind `previous`: on a later line, or on the same
/// line and no earlier than where `previous` ends.
pub open spec fn span_follows(previous: Span, next: Span) -> bool {
    previous.line < next.line || (previous.line == next.line && previous.range.end
        <= next.range.start)
}

impl Span {
    /// A span on `line` over the byte columns `range`.
    pub fn new(line: usize, range: Range) -> (span: Span)
        ensures
            span.line == line,
            span.range == range,
    {
        Span { line, range }
    }

    /// Whether the span lies on `line`.
    pub fn covers_line(&self, line: usize) -> (covers: bool)
        ensures
            covers == (self.line == line),
    {
        self.line == line
    }
}

impl Clone for Span {
    fn clone(&self) -> (copy: Span)
        ensures
            copy == *self,
    {
        Span { line: self.line, range: self.range.start..self.range.end }
    }
}

} // verus!
