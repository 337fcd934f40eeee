//! Markdown events: what the `pulldown-cmark` parser reports of a source text.

use std::ops::Range;

use pulldown_cmark::{CodeBlockKind, Event, Options, Parser, Tag, TagEnd};
use vstd::prelude::*;

verus! {

/// What a markdown event says.
#[derive(Debug, PartialEq, Eq)]
pub enum MarkdownToken {
    /// A heading of the given level begins.
    HeadingStart(u8),
    ParagraphStart,
    /// An image with the given path begins.
    ImageStart(String),
    /// A link with the given destination begins.
    LinkStart(String),
    QuoteStart,
    ListStart,
    /// A fenced code block with the given info string begins.
    FencedStart(String),
    IndentedStart,
    TableStart,
    HeadingEnd,
    ParagraphEnd,
    ImageEnd,
    LinkEnd,
    QuoteEnd,
    ListEnd,
    CodeBlockEnd,
    TableHeadEnd,
    TableCellEnd,
    TableRowEnd,
    TableEnd,
    /// A thematic break.
    Rule,
    Text(String),
    /// Inline code.
    Code(String),
    /// A soft or hard line break.
    Break,
    /// Anything else.
    Other,
}

/// The mathematical counterpart of [`MarkdownToken`].
pub enum TokenView {
    HeadingStart(u8),
    ParagraphStart,
    ImageStart(Seq<char>),
    LinkStart(Seq<char>),
    QuoteStart,
    ListStart,
    FencedStart(Seq<char>),
    IndentedStart,
    TableStart,
    HeadingEnd,
    ParagraphEnd,
    ImageEnd,
    LinkEnd,
    QuoteEnd,
    ListEnd,
    CodeBlockEnd,
    TableHeadEnd,
    TableCellEnd,
    TableRowEnd,
    TableEnd,
    Rule,
    Text(Seq<char>),
    Code(Seq<char>),
    Break,
    Other,
}

impl View for MarkdownToken {
    type V = TokenView;

    open spec fn view(&self) -> TokenView {
        match self {
            MarkdownToken::HeadingStart(level) => TokenView::HeadingStart(*level),
            MarkdownToken::ParagraphStart => TokenView::ParagraphStart,
            MarkdownToken::ImageStart(path) => TokenView::ImageStart(path@),
            MarkdownToken::LinkStart(href) => TokenView::LinkStart(href@),
            MarkdownToken::QuoteStart => TokenView::QuoteStart,
            MarkdownToken::ListStart => TokenView::ListStart,
            MarkdownToken::FencedStart(info) => TokenView::FencedStart(info@),
            MarkdownToken::IndentedStart => TokenView::IndentedStart,
            MarkdownToken::TableStart => TokenView::TableStart,
            MarkdownToken::HeadingEnd => TokenView::HeadingEnd,
            MarkdownToken::ParagraphEnd => TokenView::ParagraphEnd,
            MarkdownToken::ImageEnd => TokenView::ImageEnd,
            MarkdownToken::LinkEnd => TokenView::LinkEnd,
            MarkdownToken::QuoteEnd => TokenView::QuoteEnd,
            MarkdownToken::ListEnd => TokenView::ListEnd,
            MarkdownToken::CodeBlockEnd => TokenView::CodeBlockEnd,
            MarkdownToken::TableHeadEnd => TokenView::TableHeadEnd,
            MarkdownToken::TableCellEnd => TokenView::TableCellEnd,
            MarkdownToken::TableRowEnd => TokenView::TableRowEnd,
            MarkdownToken::TableEnd => TokenView::TableEnd,
            MarkdownToken::Rule => TokenView::Rule,
            MarkdownToken::Text(text) => TokenView::Text(text@),
            MarkdownToken::Code(text) => TokenView::Code(text@),
            MarkdownToken::Break => TokenView::Break,
            MarkdownToken::Other => TokenView::Other,
        }
    }
}

/// Whether the token says that a block or a span begins.
pub open spec fn is_start(t: TokenView) -> bool {
    match t {
        TokenView::HeadingStart(_) => true,
        TokenView::ParagraphStart => true,
        TokenView::ImageStart(_) => true,
        TokenView::LinkStart(_) => true,
        TokenView::QuoteStart => true,
        TokenView::ListStart => true,
        TokenView::FencedStart(_) => true,
        TokenView::IndentedStart => true,
        TokenView::TableStart => true,
        _ => false,
    }
}

/// Whether the token says that a block or a span ends.
pub open spec fn is_end(t: TokenView) -> bool {
    match t {
        TokenView::HeadingEnd => true,
        TokenView::ParagraphEnd => true,
        TokenView::ImageEnd => true,
        TokenView::LinkEnd => true,
        TokenView::QuoteEnd => true,
        TokenView::ListEnd => true,
        TokenView::CodeBlockEnd => true,
        TokenView::TableHeadEnd => true,
        TokenView::TableCellEnd => true,
        TokenView::TableRowEnd => true,
        TokenView::TableEnd => true,
        _ => false,
    }
}

/// Whether the token stands for something with no inside.
pub open spec fn is_leaf(t: TokenView) -> bool {
    match t {
        TokenView::Rule => true,
        TokenView::Text(_) => true,
        TokenView::Code(_) => true,
        TokenView::Break => true,
        _ => false,
    }
}

/// An event with the range of bytes of the source that it stands for.
#[derive(Debug, PartialEq, Eq)]
pub struct MarkdownEvent {
    pub token: MarkdownToken,
    pub start: usize,
    pub end: usize,
}

/// The mathematical counterpart of [`MarkdownEvent`].
pub struct EventView {
    pub token: TokenView,
    pub start: usize,
    pub end: usize,
}

impl View for MarkdownEvent {
    type V = EventView;

    open spec fn view(&self) -> EventView {
        EventView { token: self.token@, start: self.start, end: self.end }
    }
}

/// The views of a sequence of events.
pub open spec fn event_views(events: Seq<MarkdownEvent>) -> Seq<EventView> {
    events.map_values(|e: MarkdownEvent| e@)
}

#[verifier::external_type_specification]
#[verifier::external_body]
pub struct ExEvent<'a>(pulldown_cmark::Event<'a>);

/// The events that the markdown parser reports of a source text, with tables
/// enabled.
pub uninterp spec fn markdown_events(input: Seq<char>) -> Seq<EventView>;

/// What an event of the markdown parser holds.
pub uninterp spec fn event_token(event: Event<'_>) -> TokenView;

/// `pulldown_cmark::Parser::new_ext` with tables enabled, iterated with
/// offsets: the events and their byte ranges are a function of the text.
#[verifier::external_body]
fn parser_events(input: &str) -> (r: Vec<(Event<'_>, Range<usize>)>)
    ensures
        r.len() == markdown_events(input@).len(),
        forall|i: int|
            0 <= i < r.len() ==> {
                &&& event_token((#[trigger] r@[i]).0) == markdown_events(input@)[i].token
                &&& r@[i].1.start == markdown_events(input@)[i].start
                &&& r@[i].1.end == markdown_events(input@)[i].end
            },
{
    Parser::new_ext(input, Options::ENABLE_TABLES).into_offset_iter().collect()
}

/// The variants of `pulldown_cmark::Tag` in an `Event::Start`, told apart: the
/// token is given for those that the library reads. A heading level is one of
/// six.
#[verifier::external_body]
fn start_token(event: &Event<'_>) -> (r: Option<MarkdownToken>)
    ensures
        r is Some <==> is_start(event_token(*event)),
        r matches Some(token) ==> token@ == event_token(*event),
        r matches Some(MarkdownToken::HeadingStart(level)) ==> 1 <= level <= 6,
{
    let Event::Start(tag) = event else { return None };
    Some(match tag {
        Tag::Heading { level, .. } => MarkdownToken::HeadingStart(*level as u8),
        Tag::Paragraph => MarkdownToken::ParagraphStart,
        Tag::Image { dest_url, .. } => MarkdownToken::ImageStart(dest_url.to_string()),
        Tag::Link { dest_url, .. } => MarkdownToken::LinkStart(dest_url.to_string()),
        Tag::BlockQuote(_) => MarkdownToken::QuoteStart,
        Tag::List(_) => MarkdownToken::ListStart,
        Tag::CodeBlock(CodeBlockKind::Fenced(info)) => MarkdownToken::FencedStart(info.to_string()),
        Tag::CodeBlock(CodeBlockKind::Indented) => MarkdownToken::IndentedStart,
        Tag::Table(_) => MarkdownToken::TableStart,
        _ => return None,
    })
}

/// The variants of `pulldown_cmark::TagEnd` in an `Event::End`, told apart: the
/// token is given for those that the library reads.
#[verifier::external_body]
fn end_token(event: &Event<'_>) -> (r: Option<MarkdownToken>)
    ensures
        r is Some <==> is_end(event_token(*event)),
        r matches Some(token) ==> token@ == event_token(*event),
{
    let Event::End(tag) = event else { return None };
    Some(match tag {
        TagEnd::Heading(_) => MarkdownToken::HeadingEnd,
        TagEnd::Paragraph => MarkdownToken::ParagraphEnd,
        TagEnd::Image => MarkdownToken::ImageEnd,
        TagEnd::Link => MarkdownToken::LinkEnd,
        TagEnd::BlockQuote(_) => MarkdownToken::QuoteEnd,
        TagEnd::List(_) => MarkdownToken::ListEnd,
        TagEnd::CodeBlock => MarkdownToken::CodeBlockEnd,
        TagEnd::TableHead => MarkdownToken::TableHeadEnd,
        TagEnd::TableCell => MarkdownToken::TableCellEnd,
        TagEnd::TableRow => MarkdownToken::TableRowEnd,
        TagEnd::Table => MarkdownToken::TableEnd,
        _ => return None,
    })
}

/// The other variants of `pulldown_cmark::Event`, told apart: the token is
/// given for those that the library reads.
#[verifier::external_body]
fn leaf_token(event: &Event<'_>) -> (r: Option<MarkdownToken>)
    ensures
        r is Some <==> is_leaf(event_token(*event)),
        r matches Some(token) ==> token@ == event_token(*event),
{
    match event {
        Event::Rule => Some(MarkdownToken::Rule),
        Event::Text(text) => Some(MarkdownToken::Text(text.to_string())),
        Event::Code(text) => Some(MarkdownToken::Code(text.to_string())),
        Event::SoftBreak => Some(MarkdownToken::Break),
        Event::HardBreak => Some(MarkdownToken::Break),
        _ => None,
    }
}

/// The token of an event.
fn token_of(event: &Event<'_>) -> (r: MarkdownToken)
    ensures
        r@ == event_token(*event),
        r matches MarkdownToken::HeadingStart(level) ==> 1 <= level <= 6,
{
    match start_token(event) {
        Some(token) => token,
        None => match end_token(event) {
            Some(token) => token,
            None => match leaf_token(event) {
                Some(token) => token,
                None => MarkdownToken::Other,
            },
        },
    }
}

/// The markdown events of a source text. The level of a heading is from 1 to
/// 6.
pub fn read_events(input: &str) -> (r: Vec<MarkdownEvent>)
    ensures
        event_views(r@) == markdown_events(input@),
        forall|i: int|
            0 <= i < r.len() ==> ((#[trigger] r@[i]).token matches MarkdownToken::HeadingStart(level)
                ==> 1 <= level <= 6),
{
    let events = parser_events(input);
    let mut out: Vec<MarkdownEvent> = Vec::new();
    let mut i: usize = 0;
    while i < events.len()
        invariant
            i <= events.len(),
            out.len() == i,
            events.len() == markdown_events(input@).len(),
            forall|k: int|
                0 <= k < events.len() ==> {
                    &&& event_token((#[trigger] events@[k]).0) == markdown_events(input@)[k].token
                    &&& events@[k].1.start == markdown_events(input@)[k].start
                    &&& events@[k].1.end == markdown_events(input@)[k].end
                },
            forall|k: int| 0 <= k < i ==> (#[trigger] out@[k])@ == markdown_events(input@)[k],
            forall|k: int|
                0 <= k < i ==> ((#[trigger] out@[k]).token matches MarkdownToken::HeadingStart(
                    level,
                ) ==> 1 <= level <= 6),
        decreases events.len() - i,
    {
        let event = &events[i];
        let token = token_of(&event.0);
        out.push(MarkdownEvent { token, start: event.1.start, end: event.1.end });
        i += 1;
    }
    proof {
        assert(event_views(out@) =~= markdown_events(input@));
    }
    out
}

} // verus!
