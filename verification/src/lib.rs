//! morg: a verified parser and toolkit for morg-mode documents.
//!
//! morg-mode extends Markdown with a `#tag` system for metadata, time
//! tracking, task management and literate programming.  The parser turns a
//! source string into a typed tree ([`ast::Document`]) and collects
//! recoverable diagnostics ([`error::ParseError`]) on the side.

pub mod span;
pub mod text;
pub mod tokens;
pub mod tags;
pub mod lines;
pub mod inline;
pub mod lexer;
pub mod ast;
pub mod error;

pub use span::Span;
pub mod words;
pub mod parser;
pub mod report;
pub mod config;
pub mod tangle;
pub mod diary;
pub mod export;
pub mod collect;
pub mod lint;
pub mod columns;
pub mod refs;
pub mod ids;
pub mod clock;
pub mod todos;
pub mod archive;
pub mod refile;
pub mod frontmatter;
pub mod agenda;
pub mod ical;
pub mod capture;
pub mod paths;

pub use ast::{
    Alignment, Block, Callout, Checkbox, CodeBlock, Comment, Document, FootnoteDefinition,
    Frontmatter, Heading, HtmlBlock, Image, InlineContent, InlineSegment, Link, LinkDefinition,
    LinkTarget, List, ListItem, ListKind, Paragraph, PropertyDrawer, StringMap, Table,
};
pub use error::{ParseError, ParseErrorKind};
pub use parser::{parse_document, ParseResult};
pub use tags::{
    parse_duration, ClockValue, Date, DateTime, PriorityLevel, Repeater, RepeaterUnit, Tag, TagKind,
    Time, Timestamp,
};
