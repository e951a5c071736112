//! Parse diagnostics.

use vstd::prelude::*;

use crate::span::Span;
use crate::text::{append_chars, chars_of, decimal_chars, string_of};

verus! {

/// A recoverable problem found while parsing.
#[derive(Debug, Clone, PartialEq)]
pub struct ParseError {
    pub kind: ParseErrorKind,
    pub span: Span,
    pub message: String,
}

#[derive(Debug, Clone, Copy, PartialEq, Eq, Structural)]
pub enum ParseErrorKind {
    UnclosedCodeFence,
    UnclosedFrontmatter,
    InvalidTagArgument,
    InvalidYaml,
    InvalidTable,
    UnclosedHtmlBlock,
    UnexpectedToken,
}

/// The human-readable name of an error kind.
pub open spec fn kind_text(k: ParseErrorKind) -> Seq<char> {
    match k {
        ParseErrorKind::UnclosedCodeFence => "unclosed code fence"@,
        ParseErrorKind::UnclosedFrontmatter => "unclosed frontmatter"@,
        ParseErrorKind::InvalidTagArgument => "invalid tag argument"@,
        ParseErrorKind::InvalidYaml => "invalid YAML"@,
        ParseErrorKind::InvalidTable => "invalid table"@,
        ParseErrorKind::UnclosedHtmlBlock => "unclosed HTML block"@,
        ParseErrorKind::UnexpectedToken => "unexpected token"@,
    }
}

impl ParseErrorKind {
    /// The human-readable name of the kind.
    pub fn describe(&self) -> (s: String)
        ensures
            s@ == kind_text(*self),
    {
        let t = match self {
            ParseErrorKind::UnclosedCodeFence => "unclosed code fence",
            ParseErrorKind::UnclosedFrontmatter => "unclosed frontmatter",
            ParseErrorKind::InvalidTagArgument => "invalid tag argument",
            ParseErrorKind::InvalidYaml => "invalid YAML",
            ParseErrorKind::InvalidTable => "invalid table",
            ParseErrorKind::UnclosedHtmlBlock => "unclosed HTML block",
            ParseErrorKind::UnexpectedToken => "unexpected token",
        };
        string_of(&chars_of(t))
    }
}

impl ParseError {
    /// `line:col: kind: message`.
    pub fn render(&self) -> (s: String)
        ensures
            s@ == crate::text::decimal(self.span.line as nat) + ":"@ + crate::text::decimal(
                self.span.col as nat,
            ) + ": "@ + kind_text(self.kind) + ": "@ + self.message@,
    {
        let mut out = decimal_chars(self.span.line as u64);
        append_chars(&mut out, &chars_of(":"));
        append_chars(&mut out, &decimal_chars(self.span.col as u64));
        append_chars(&mut out, &chars_of(": "));
        append_chars(&mut out, &chars_of(self.kind.describe().as_str()));
        append_chars(&mut out, &chars_of(": "));
        append_chars(&mut out, &chars_of(self.message.as_str()));
        string_of(&out)
    }
}

} // verus!
