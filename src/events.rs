//! The structural event stream of a markdown document, as plain values.

use vstd::prelude::*;
use pulldown_cmark::{CodeBlockKind, Event, Parser, Tag, TagEnd};

verus! {

/// An opening tag of the event stream.
#[derive(Debug, PartialEq, Eq)]
pub enum MdTag {
    Paragraph,
    /// Heading level (1 to 6) and explicit anchor id.
    Heading(u8, Option<String>),
    BlockQuote,
    /// `None` for an indented block, else the fence's language tag.
    CodeBlock(Option<String>),
    HtmlBlock,
    /// `Some(start)` for an ordered list.
    List(Option<u64>),
    Item,
    FootnoteDefinition(String),
    Table,
    TableHead,
    TableRow,
    TableCell,
    Emphasis,
    Strong,
    Strikethrough,
    Link { dest: String, title: String, id: String },
    Image { dest: String, title: String, id: String },
    MetadataBlock,
}

/// A closing tag of the event stream.
#[derive(Debug, PartialEq, Eq)]
pub enum MdTagEnd {
    Paragraph,
    Heading(u8),
    BlockQuote,
    CodeBlock,
    HtmlBlock,
    /// `true` for an ordered list.
    List(bool),
    Item,
    FootnoteDefinition,
    Table,
    TableHead,
    TableRow,
    TableCell,
    Emphasis,
    Strong,
    Strikethrough,
    Link,
    Image,
    MetadataBlock,
}

/// One event of the structural stream of a markdown document.
#[derive(Debug, PartialEq, Eq)]
pub enum MdEvent {
    Start(MdTag),
    End(MdTagEnd),
    Text(String),
    Code(String),
    Html(String),
    InlineHtml(String),
    FootnoteReference(String),
    SoftBreak,
    HardBreak,
    Rule,
    TaskListMarker(bool),
}

#[verifier::external_type_specification]
#[verifier::external_body]
pub struct ExEvent<'a>(Event<'a>);

#[verifier::external_type_specification]
#[verifier::external_body]
pub struct ExTag<'a>(Tag<'a>);

#[verifier::external_type_specification]
#[verifier::external_body]
pub struct ExTagEnd(TagEnd);

/// The events that `pulldown_cmark::Parser` yields for a text, in order.
pub uninterp spec fn markdown_events(text: Seq<char>) -> Seq<MdEvent>;

/// Relies on `pulldown_cmark::Parser::new` (default options): the event stream of `text`.
#[verifier::external_body]
pub(crate) fn parse_markdown(text: &str) -> (r: Vec<MdEvent>)
    ensures
        r@ == markdown_events(text@),
{
    Parser::new(text).map(event_from).collect()
}

/// Relies on the variants of `pulldown_cmark::Event`: the same event as a plain value.
#[verifier::external_body]
fn event_from(e: Event<'_>) -> MdEvent {
    match e {
        Event::Start(t) => MdEvent::Start(tag_from(t)),
        Event::End(t) => MdEvent::End(tag_end_from(t)),
        Event::Text(s) => MdEvent::Text(s.to_string()),
        Event::Code(s) => MdEvent::Code(s.to_string()),
        Event::Html(s) => MdEvent::Html(s.to_string()),
        Event::InlineHtml(s) => MdEvent::InlineHtml(s.to_string()),
        Event::FootnoteReference(s) => MdEvent::FootnoteReference(s.to_string()),
        Event::SoftBreak => MdEvent::SoftBreak,
        Event::HardBreak => MdEvent::HardBreak,
        Event::Rule => MdEvent::Rule,
        Event::TaskListMarker(b) => MdEvent::TaskListMarker(b),
    }
}

/// Relies on the variants of `pulldown_cmark::Tag` (block-level ones).
#[verifier::external_body]
fn tag_from(t: Tag<'_>) -> MdTag {
    match t {
        Tag::Paragraph => MdTag::Paragraph,
        Tag::Heading { level, id, .. } => MdTag::Heading(level as u8, id.map(|s| s.to_string())),
        Tag::BlockQuote => MdTag::BlockQuote,
        Tag::CodeBlock(CodeBlockKind::Indented) => MdTag::CodeBlock(None),
        Tag::CodeBlock(CodeBlockKind::Fenced(l)) => MdTag::CodeBlock(Some(l.to_string())),
        Tag::HtmlBlock => MdTag::HtmlBlock,
        Tag::List(n) => MdTag::List(n),
        Tag::Item => MdTag::Item,
        Tag::FootnoteDefinition(s) => MdTag::FootnoteDefinition(s.to_string()),
        Tag::Table(_) => MdTag::Table,
        t => inline_tag_from(t),
    }
}

/// Relies on the variants of `pulldown_cmark::Tag` (table parts and inline ones).
#[verifier::external_body]
fn inline_tag_from(t: Tag<'_>) -> MdTag {
    match t {
        Tag::TableHead => MdTag::TableHead,
        Tag::TableRow => MdTag::TableRow,
        Tag::TableCell => MdTag::TableCell,
        Tag::Emphasis => MdTag::Emphasis,
        Tag::Strong => MdTag::Strong,
        Tag::Strikethrough => MdTag::Strikethrough,
        Tag::Link { dest_url: d, title: t, id: i, .. } => MdTag::Link { dest: d.to_string(), title: t.to_string(), id: i.to_string() },
        Tag::Image { dest_url: d, title: t, id: i, .. } => MdTag::Image { dest: d.to_string(), title: t.to_string(), id: i.to_string() },
        _ => MdTag::MetadataBlock,
    }
}

/// Relies on the variants of `pulldown_cmark::TagEnd` (block-level ones).
#[verifier::external_body]
fn tag_end_from(t: TagEnd) -> MdTagEnd {
    match t {
        TagEnd::Paragraph => MdTagEnd::Paragraph,
        TagEnd::Heading(level) => MdTagEnd::Heading(level as u8),
        TagEnd::BlockQuote => MdTagEnd::BlockQuote,
        TagEnd::CodeBlock => MdTagEnd::CodeBlock,
        TagEnd::HtmlBlock => MdTagEnd::HtmlBlock,
        TagEnd::List(ordered) => MdTagEnd::List(ordered),
        TagEnd::Item => MdTagEnd::Item,
        TagEnd::FootnoteDefinition => MdTagEnd::FootnoteDefinition,
        TagEnd::Table => MdTagEnd::Table,
        t => inline_tag_end_from(t),
    }
}

/// Relies on the variants of `pulldown_cmark::TagEnd` (table parts and inline ones).
#[verifier::external_body]
fn inline_tag_end_from(t: TagEnd) -> MdTagEnd {
    match t {
        TagEnd::TableHead => MdTagEnd::TableHead,
        TagEnd::TableRow => MdTagEnd::TableRow,
        TagEnd::TableCell => MdTagEnd::TableCell,
        TagEnd::Emphasis => MdTagEnd::Emphasis,
        TagEnd::Strong => MdTagEnd::Strong,
        TagEnd::Strikethrough => MdTagEnd::Strikethrough,
        TagEnd::Link => MdTagEnd::Link,
        TagEnd::Image => MdTagEnd::Image,
        _ => MdTagEnd::MetadataBlock,
    }
}

} // verus!
