//! Source locations.

use vstd::prelude::*;

verus! {

/// Source location of a parsed node.
///
/// `start` and `end` are byte offsets into the original source string.
/// `line` and `col` are 1-based and point to the opening character of the
/// node, suitable for error messages.
#[derive(Debug, Clone, Copy, PartialEq, Eq, Structural)]
pub struct Span {
    /// Inclusive byte offset of the first character.
    pub start: usize,
    /// Exclusive byte offset past the last character.
    pub end: usize,
    /// 1-based line number of `start`.
    pub line: u32,
    /// 1-based column number of `start`.
    pub col: u32,
}

/// The span that covers both `a` and `b`: the smaller start, the larger end,
/// the earlier line, and the column of the smaller start; when both start
/// at the same offset, the column of the one on the earlier line (the left
/// operand's when the lines are equal too).
pub open spec fn spec_merge(a: Span, b: Span) -> Span {
    Span {
        start: if a.start <= b.start { a.start } else { b.start },
        end: if a.end >= b.end { a.end } else { b.end },
        line: if a.line <= b.line { a.line } else { b.line },
        col: if a.start < b.start || (a.start == b.start && a.line <= b.line) {
            a.col
        } else {
            b.col
        },
    }
}

impl Span {
    pub fn new(start: usize, end: usize, line: u32, col: u32) -> (s: Self)
        ensures
            s == (Span { start, end, line, col }),
    {
        Span { start, end, line, col }
    }

    pub fn empty(line: u32, col: u32) -> (s: Self)
        ensures
            s == (Span { start: 0, end: 0, line, col }),
    {
        Span { start: 0, end: 0, line, col }
    }

    pub fn merge(self, other: Span) -> (s: Self)
        ensures
            s == spec_merge(self, other),
    {
        Span {
            start: if self.start <= other.start { self.start } else { other.start },
            end: if self.end >= other.end { self.end } else { other.end },
            line: if self.line <= other.line { self.line } else { other.line },
            col: if self.start < other.start || (self.start == other.start && self.line
                <= other.line) {
                self.col
            } else {
                other.col
            },
        }
    }
}

/// Merging covers both operands: the merged range contains each operand's
/// range and its line is no later than either operand's line.
pub proof fn lemma_merge_covers(a: Span, b: Span)
    ensures
        spec_merge(a, b).start <= a.start,
        spec_merge(a, b).start <= b.start,
        spec_merge(a, b).end >= a.end,
        spec_merge(a, b).end >= b.end,
        spec_merge(a, b).line <= a.line,
        spec_merge(a, b).line <= b.line,
{
}

/// Merging a span with itself gives the same span.
pub proof fn lemma_merge_idempotent(a: Span)
    ensures
        spec_merge(a, a) == a,
{
}

/// Two spans whose lines follow their offsets, as two spans of one source
/// do: the one that starts first is on a line no later than the other.
pub open spec fn in_order(a: Span, b: Span) -> bool {
    &&& a.start < b.start ==> a.line <= b.line
    &&& b.start < a.start ==> b.line <= a.line
}

/// Merging spans of one source is associative: the order in which a chain
/// of spans is merged does not change the result.
pub proof fn lemma_merge_associative(a: Span, b: Span, c: Span)
    requires
        in_order(a, b),
        in_order(b, c),
        in_order(a, c),
    ensures
        spec_merge(spec_merge(a, b), c) == spec_merge(a, spec_merge(b, c)),
{
}

/// Merging is commutative whenever the two spans start at different
/// offsets or lie on different lines.
pub proof fn lemma_merge_commutative(a: Span, b: Span)
    requires
        a.start != b.start || a.line != b.line,
    ensures
        spec_merge(a, b) == spec_merge(b, a),
{
}

} // verus!
