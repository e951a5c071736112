//! Tokens produced by the lexer.

use vstd::prelude::*;

use crate::span::Span;
use crate::text::{chars_of, same};

verus! {

/// The built-in tag names.
#[derive(Debug, Clone, Copy, PartialEq, Eq, Structural)]
pub enum Keyword {
    Todo,
    Done,
    Deadline,
    Scheduled,
    Date,
    Event,
    ClockIn,
    ClockOut,
    Clock,
    Priority,
    Effort,
    Closed,
    Archive,
    Progress,
    Tangle,
    Properties,
    End,
}

/// The keyword spelled by `name`, if any.
pub open spec fn spec_keyword(name: Seq<char>) -> Option<Keyword> {
    if name == "todo"@ {
        Some(Keyword::Todo)
    } else if name == "done"@ {
        Some(Keyword::Done)
    } else if name == "deadline"@ {
        Some(Keyword::Deadline)
    } else if name == "scheduled"@ {
        Some(Keyword::Scheduled)
    } else if name == "date"@ {
        Some(Keyword::Date)
    } else if name == "event"@ {
        Some(Keyword::Event)
    } else if name == "clock-in"@ {
        Some(Keyword::ClockIn)
    } else if name == "clock-out"@ {
        Some(Keyword::ClockOut)
    } else if name == "clock"@ {
        Some(Keyword::Clock)
    } else if name == "priority"@ {
        Some(Keyword::Priority)
    } else if name == "effort"@ {
        Some(Keyword::Effort)
    } else if name == "closed"@ {
        Some(Keyword::Closed)
    } else if name == "archive"@ {
        Some(Keyword::Archive)
    } else if name == "progress"@ {
        Some(Keyword::Progress)
    } else if name == "tangle"@ {
        Some(Keyword::Tangle)
    } else if name == "properties"@ {
        Some(Keyword::Properties)
    } else if name == "end"@ {
        Some(Keyword::End)
    } else {
        None
    }
}

/// The spelling of a keyword.
pub open spec fn spec_keyword_str(k: Keyword) -> Seq<char> {
    match k {
        Keyword::Todo => "todo"@,
        Keyword::Done => "done"@,
        Keyword::Deadline => "deadline"@,
        Keyword::Scheduled => "scheduled"@,
        Keyword::Date => "date"@,
        Keyword::Event => "event"@,
        Keyword::ClockIn => "clock-in"@,
        Keyword::ClockOut => "clock-out"@,
        Keyword::Clock => "clock"@,
        Keyword::Priority => "priority"@,
        Keyword::Effort => "effort"@,
        Keyword::Closed => "closed"@,
        Keyword::Archive => "archive"@,
        Keyword::Progress => "progress"@,
        Keyword::Tangle => "tangle"@,
        Keyword::Properties => "properties"@,
        Keyword::End => "end"@,
    }
}

impl Keyword {
    /// Looks a tag name up in the keyword table.
    pub fn from_chars(name: &[char]) -> (r: Option<Keyword>)
        ensures
            r == spec_keyword(name@),
    {
        if same(name, &chars_of("todo")) {
            Some(Keyword::Todo)
        } else if same(name, &chars_of("done")) {
            Some(Keyword::Done)
        } else if same(name, &chars_of("deadline")) {
            Some(Keyword::Deadline)
        } else if same(name, &chars_of("scheduled")) {
            Some(Keyword::Scheduled)
        } else if same(name, &chars_of("date")) {
            Some(Keyword::Date)
        } else if same(name, &chars_of("event")) {
            Some(Keyword::Event)
        } else if same(name, &chars_of("clock-in")) {
            Some(Keyword::ClockIn)
        } else if same(name, &chars_of("clock-out")) {
            Some(Keyword::ClockOut)
        } else if same(name, &chars_of("clock")) {
            Some(Keyword::Clock)
        } else if same(name, &chars_of("priority")) {
            Some(Keyword::Priority)
        } else if same(name, &chars_of("effort")) {
            Some(Keyword::Effort)
        } else if same(name, &chars_of("closed")) {
            Some(Keyword::Closed)
        } else if same(name, &chars_of("archive")) {
            Some(Keyword::Archive)
        } else if same(name, &chars_of("progress")) {
            Some(Keyword::Progress)
        } else if same(name, &chars_of("tangle")) {
            Some(Keyword::Tangle)
        } else if same(name, &chars_of("properties")) {
            Some(Keyword::Properties)
        } else if same(name, &chars_of("end")) {
            Some(Keyword::End)
        } else {
            None
        }
    }

    /// Looks a tag name up in the keyword table.
    pub fn from_str(name: &str) -> (r: Option<Keyword>)
        ensures
            r == spec_keyword(name@),
    {
        Keyword::from_chars(&chars_of(name))
    }

    /// The keyword's spelling, as a character vector.
    pub fn spelling(&self) -> (r: Vec<char>)
        ensures
            r@ == spec_keyword_str(*self),
    {
        match self {
            Keyword::Todo => chars_of("todo"),
            Keyword::Done => chars_of("done"),
            Keyword::Deadline => chars_of("deadline"),
            Keyword::Scheduled => chars_of("scheduled"),
            Keyword::Date => chars_of("date"),
            Keyword::Event => chars_of("event"),
            Keyword::ClockIn => chars_of("clock-in"),
            Keyword::ClockOut => chars_of("clock-out"),
            Keyword::Clock => chars_of("clock"),
            Keyword::Priority => chars_of("priority"),
            Keyword::Effort => chars_of("effort"),
            Keyword::Closed => chars_of("closed"),
            Keyword::Archive => chars_of("archive"),
            Keyword::Progress => chars_of("progress"),
            Keyword::Tangle => chars_of("tangle"),
            Keyword::Properties => chars_of("properties"),
            Keyword::End => chars_of("end"),
        }
    }
}

/// A token of the block-level or of the inline token stream.
#[derive(Debug, Clone, PartialEq)]
pub enum Token {
    // ---- block level ----
    Heading { level: u8 },
    FencedCodeOpen { info: String, fence_char: char, fence_len: usize },
    FencedCodeClose { fence_char: char, fence_len: usize },
    IndentedCodeLine,
    BlankLine,
    LineComment,
    BlockCommentOpen,
    BlockCommentClose,
    FootnoteDefStart { label: String },
    LinkDefStart { label: String },
    FrontmatterDelim,
    HorizontalRule,
    HtmlOpen { tag: String },
    HtmlClose { tag: String },
    TableRow,
    CalloutStart { kind: String, metadata: Option<String> },
    BlockquoteContinuation,
    ListMarker { ordered: bool, indent: usize },
    PropertiesOpen,
    PropertiesClose,
    RawLine(String),
    Newline,
    Eof,
    // ---- both levels ----
    Tag(Keyword),
    UnknownTag { name: String },
    TagArg(String),
    Text(String),
    // ---- inline ----
    InlineCode(String),
    BoldDelim,
    ItalicDelim,
    StrikethroughDelim,
    Link { text: String, url: String, title: Option<String>, meta: Option<String> },
    Image { alt: String, url: String, title: Option<String> },
    FootnoteRef { label: String },
    LinkRef { text: String, label: String },
    HardBreak,
}

/// A token with the span it was read from.
#[derive(Debug, Clone, PartialEq)]
pub struct Spanned {
    pub kind: Token,
    pub span: Span,
}

} // verus!
