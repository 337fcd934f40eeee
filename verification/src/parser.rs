//! The content parser: from markdown events to content elements.

use vstd::prelude::*;
use vstd::utf8::*;

use crate::applying;
use crate::decimal;
use crate::decimal::u64_text;
use crate::document;
use crate::document::{ContentElement, ElementView, FlatDocument, LinkTextView};
use crate::error::ContentError;
use crate::link;
use crate::link::{is_link_expression, parse_link_target, parse_link_text};
use crate::markdown;
use crate::markdown::{read_events, EventView, MarkdownEvent, MarkdownToken, TokenView};
use crate::schema::{HeadingLevel, Span, Spanned};
use crate::text;
use crate::text::{byte_prefix, byte_len, chars_of, get, trim};
use crate::vector;
use crate::vector::{no_elements, push_element};

verus! {

/// A paragraph that has begun: its text so far, the images in it, and its
/// place.
struct OpenParagraph {
    text: String,
    images: Vec<Spanned<ContentElement>>,
    span: Span,
}

/// What the parser is inside of.
enum State {
    Idle,
    Heading { level: HeadingLevel, text: String, span: Span },
    Paragraph(OpenParagraph),
    Image { alt: String, path: String, span: Span, within: Option<OpenParagraph> },
    Link { text: String, href: String, span: Span },
    CodeBlock { language: Option<String>, code: String, span: Span },
    Table {
        headers: Vec<String>,
        rows: Vec<Vec<String>>,
        row: Vec<String>,
        cell: String,
        span: Span,
    },
    Blockquote { text: String, span: Span },
    List { start: usize, depth: usize },
}

/// A paragraph that has begun.
#[verifier::ext_equal]
pub struct ParagraphView {
    pub text: Seq<char>,
    pub images: Seq<Spanned<ElementView>>,
    pub span: Span,
}

/// What the parser is inside of.
pub enum StateView {
    Idle,
    Heading { level: u8, text: Seq<char>, span: Span },
    Paragraph(ParagraphView),
    Image { alt: Seq<char>, path: Seq<char>, span: Span, within: Option<ParagraphView> },
    Link { text: Seq<char>, href: Seq<char>, span: Span },
    CodeBlock { language: Option<Seq<char>>, code: Seq<char>, span: Span },
    Table {
        headers: Seq<Seq<char>>,
        rows: Seq<Seq<Seq<char>>>,
        row: Seq<Seq<char>>,
        cell: Seq<char>,
        span: Span,
    },
    Blockquote { text: Seq<char>, span: Span },
    List { start: usize, depth: nat },
}

/// The views of a sequence of spanned elements.
pub open spec fn spanned_views(v: Seq<Spanned<ContentElement>>) -> Seq<Spanned<ElementView>> {
    v.map_values(|e: Spanned<ContentElement>| e@)
}

impl View for OpenParagraph {
    type V = ParagraphView;

    closed spec fn view(&self) -> ParagraphView {
        ParagraphView { text: self.text@, images: spanned_views(self.images@), span: self.span }
    }
}

impl View for State {
    type V = StateView;

    closed spec fn view(&self) -> StateView {
        match self {
            State::Idle => StateView::Idle,
            State::Heading { level, text, span } => StateView::Heading {
                level: level@,
                text: text@,
                span: *span,
            },
            State::Paragraph(p) => StateView::Paragraph(p@),
            State::Image { alt, path, span, within } => StateView::Image {
                alt: alt@,
                path: path@,
                span: *span,
                within: match within {
                    Some(p) => Some(p@),
                    None => None,
                },
            },
            State::Link { text, href, span } => StateView::Link {
                text: text@,
                href: href@,
                span: *span,
            },
            State::CodeBlock { language, code, span } => StateView::CodeBlock {
                language: text::opt_text(*language),
                code: code@,
                span: *span,
            },
            State::Table { headers, rows, row, cell, span } => StateView::Table {
                headers: text::texts(headers@),
                rows: document::row_views(rows@),
                row: text::texts(row@),
                cell: cell@,
                span: *span,
            },
            State::Blockquote { text, span } => StateView::Blockquote { text: text@, span: *span },
            State::List { start, depth } => StateView::List { start: *start, depth: *depth as nat },
        }
    }
}

/// The text that stands for a character inside HTML.
pub open spec fn html_of_char(c: char) -> Seq<char> {
    if c == '&' {
        "&amp;"@
    } else if c == '<' {
        "&lt;"@
    } else if c == '>' {
        "&gt;"@
    } else if c == '"' {
        "&quot;"@
    } else {
        seq![c]
    }
}

/// `s` with the characters that HTML gives a meaning replaced.
pub open spec fn html_of(s: Seq<char>) -> Seq<char>
    decreases s.len(),
{
    if s.len() == 0 {
        seq![]
    } else {
        html_of(s.drop_last()) + html_of_char(s.last())
    }
}

/// `s` with the characters that HTML gives a meaning replaced.
pub fn escape_html(s: &str) -> (r: String)
    ensures
        r@ == html_of(s@),
{
    let v = chars_of(s);
    let mut out = String::new();
    let mut i: usize = 0;
    proof {
        assert(v@.take(0) =~= seq![]);
    }
    while i < v.len()
        invariant
            i <= v.len(),
            out@ == html_of(v@.take(i as int)),
        decreases v.len() - i,
    {
        let c = v[i];
        proof {
            assert(v@.take(i + 1).drop_last() == v@.take(i as int));
            assert(v@.take(i + 1).last() == c);
            assert(out@.push(c) == out@ + seq![c]);
        }
        if c == '&' {
            out.append("&amp;");
        } else if c == '<' {
            out.append("&lt;");
        } else if c == '>' {
            out.append("&gt;");
        } else if c == '"' {
            out.append("&quot;");
        } else {
            out.push(c);
        }
        i += 1;
    }
    proof {
        assert(v@.take(v@.len() as int) == v@);
    }
    out
}

/// The state with `s` behind the text that it gathers, as far as it gathers
/// text.
pub open spec fn with_text(state: StateView, s: Seq<char>) -> StateView {
    match state {
        StateView::Heading { level, text, span } => StateView::Heading {
            level,
            text: text + s,
            span,
        },
        StateView::Paragraph(p) => StateView::Paragraph(ParagraphView { text: p.text + s, ..p }),
        StateView::Image { alt, path, span, within } => StateView::Image {
            alt: alt + s,
            path,
            span,
            within,
        },
        StateView::Link { text, href, span } => StateView::Link { text: text + s, href, span },
        StateView::CodeBlock { language, code, span } => StateView::CodeBlock {
            language,
            code: code + s,
            span,
        },
        StateView::Table { headers, rows, row, cell, span } => StateView::Table {
            headers,
            rows,
            row,
            cell: cell + s,
            span,
        },
        StateView::Blockquote { text, span } => StateView::Blockquote { text: text + s, span },
        StateView::List { .. } => state,
        StateView::Idle => state,
    }
}

/// Where an event stands in the source.
pub open spec fn event_span(event: EventView) -> Span {
    Span { start: event.start, end: event.end }
}

/// The state in which an event that begins something leaves the parser. A list is
/// kept as its source: whatever begins inside it is part of it.
pub open spec fn state_after_start(state: StateView, event: EventView) -> StateView {
    match (state, event.token) {
        (StateView::List { start, depth }, TokenView::ListStart) => StateView::List {
            start,
            depth: depth + 1,
        },
        (StateView::List { .. }, _) => state,
        _ => state_outside_list(state, event),
    }
}

/// The state in which an event that begins something leaves the parser, where it
/// stands in no list.
pub open spec fn state_outside_list(state: StateView, event: EventView) -> StateView {
    let span = event_span(event);
    match event.token {
        TokenView::HeadingStart(level) => StateView::Heading { level, text: seq![], span },
        // Inside a quote the paragraphs are part of the quote.
        TokenView::ParagraphStart => match state {
            StateView::Blockquote { .. } => state,
            _ => StateView::Paragraph(ParagraphView { text: seq![], images: seq![], span }),
        },
        TokenView::ImageStart(path) => StateView::Image {
            alt: seq![],
            path,
            span,
            within: match state {
                StateView::Paragraph(p) => Some(p),
                _ => None,
            },
        },
        // A link behind other text of a paragraph, or in a quote, is part of it.
        TokenView::LinkStart(href) => match state {
            StateView::Paragraph(p) if text::trimmed(p.text).len() > 0 => state,
            StateView::Blockquote { .. } => state,
            _ => StateView::Link { text: seq![], href, span },
        },
        TokenView::QuoteStart => StateView::Blockquote { text: seq![], span },
        TokenView::ListStart => StateView::List { start: event.start, depth: 1 },
        TokenView::FencedStart(info) => StateView::CodeBlock {
            language: if info.len() > 0 {
                Some(info)
            } else {
                None
            },
            code: seq![],
            span,
        },
        TokenView::IndentedStart => StateView::CodeBlock { language: None, code: seq![], span },
        TokenView::TableStart => StateView::Table {
            headers: seq![],
            rows: seq![],
            row: seq![],
            cell: seq![],
            span,
        },
        _ => state,
    }
}

/// The image that an image state has read.
pub open spec fn image_element(alt: Seq<char>, path: Seq<char>, span: Span) -> Spanned<ElementView> {
    Spanned {
        node: ElementView::Image {
            alt: if alt.len() > 0 {
                Some(alt)
            } else {
                None
            },
            path,
        },
        span,
    }
}

/// The state in which an event that ends something leaves the parser.
pub open spec fn state_after_end(state: StateView, event: EventView) -> StateView {
    match (event.token, state) {
        (TokenView::HeadingEnd, StateView::Heading { .. }) => StateView::Idle,
        (TokenView::ParagraphEnd, StateView::Paragraph(_)) => StateView::Idle,
        (TokenView::ImageEnd, StateView::Image { alt, path, span, within }) => match within {
            Some(p) => StateView::Paragraph(
                ParagraphView { images: p.images.push(image_element(alt, path, span)), ..p },
            ),
            None => StateView::Idle,
        },
        (TokenView::LinkEnd, StateView::Link { .. }) => StateView::Idle,
        (TokenView::QuoteEnd, StateView::Blockquote { .. }) => StateView::Idle,
        (TokenView::ListEnd, StateView::List { start, depth }) => if depth <= 1 {
            StateView::Idle
        } else {
            StateView::List { start, depth: (depth - 1) as nat }
        },
        (TokenView::CodeBlockEnd, StateView::CodeBlock { .. }) => StateView::Idle,
        (TokenView::TableHeadEnd, StateView::Table { headers, rows, row, cell, span }) => {
            StateView::Table { headers: row, rows, row: seq![], cell, span }
        },
        (TokenView::TableCellEnd, StateView::Table { headers, rows, row, cell, span }) => {
            StateView::Table { headers, rows, row: row.push(text::trimmed(cell)), cell: seq![], span }
        },
        (TokenView::TableRowEnd, StateView::Table { headers, rows, row, cell, span }) => {
            StateView::Table { headers, rows: rows.push(row), row: seq![], cell, span }
        },
        (TokenView::TableEnd, StateView::Table { .. }) => StateView::Idle,
        _ => state,
    }
}

/// The state in which an event without an inside leaves the parser.
pub open spec fn state_after_leaf(state: StateView, event: EventView) -> StateView {
    match event.token {
        TokenView::Rule => match state {
            StateView::List { .. } => state,
            _ => StateView::Idle,
        },
        TokenView::Text(s) => with_text(state, s),
        TokenView::Code(s) => match state {
            StateView::Table { .. } => with_text(state, "<code>"@ + html_of(s) + "</code>"@),
            _ => with_text(state, s),
        },
        TokenView::Break => match state {
            StateView::Paragraph(_) => with_text(state, seq![' ']),
            StateView::Heading { .. } => with_text(state, seq![' ']),
            StateView::Blockquote { .. } => with_text(state, seq![' ']),
            _ => state,
        },
        _ => state,
    }
}

/// The state in which an event leaves the parser.
pub open spec fn state_after(state: StateView, event: EventView) -> StateView {
    if markdown::is_start(event.token) {
        state_after_start(state, event)
    } else if markdown::is_end(event.token) {
        state_after_end(state, event)
    } else {
        state_after_leaf(state, event)
    }
}

/// The text of a paragraph. One without images has the text of the source, so
/// that inline markup is kept.
pub open spec fn paragraph_text(input: Seq<char>, p: ParagraphView) -> Seq<char> {
    match text::byte_slice(input, p.span.start as int, p.span.end as int) {
        Some(source) if p.images.len() == 0 && text::trimmed(source).len() > 0 => text::trimmed(
            source,
        ),
        _ => text::trimmed(p.text),
    }
}

/// The element that a link makes: a link expression where its destination
/// writes one.
pub open spec fn link_node(text: Seq<char>, href: Seq<char>) -> ElementView {
    match link::link_target_of(href) {
        Ok(target) if link::is_expression(href) => ElementView::LinkExpression {
            text: link::link_text_of(text),
            target,
        },
        _ => ElementView::Link { text, href },
    }
}

/// The source text of a list.
pub open spec fn list_source(input: Seq<char>, start: usize, end: usize) -> Seq<char> {
    match text::byte_slice(input, start as int, end as int) {
        Some(source) => text::trimmed(source),
        None => seq![],
    }
}

/// The elements that an event completes.
pub open spec fn emitted(input: Seq<char>, state: StateView, event: EventView) -> Seq<
    Spanned<ElementView>,
> {
    match (event.token, state) {
        (TokenView::HeadingEnd, StateView::Heading { level, text, span }) => seq![
            Spanned { node: ElementView::Heading { level, text }, span },
        ],
        (TokenView::ParagraphEnd, StateView::Paragraph(p)) => if text::trimmed(p.text).len() > 0 {
            seq![
                Spanned {
                    node: ElementView::Paragraph { text: paragraph_text(input, p) },
                    span: p.span,
                },
            ] + p.images
        } else {
            p.images
        },
        (TokenView::ImageEnd, StateView::Image { alt, path, span, within: None }) => seq![
            image_element(alt, path, span),
        ],
        (TokenView::LinkEnd, StateView::Link { text, href, span }) => seq![
            Spanned { node: link_node(text, href), span },
        ],
        (TokenView::QuoteEnd, StateView::Blockquote { text, span }) => if text::trimmed(text).len()
            > 0 {
            seq![Spanned { node: ElementView::Blockquote { text: text::trimmed(text) }, span }]
        } else {
            seq![]
        },
        (TokenView::ListEnd, StateView::List { start, depth }) => {
            let source = list_source(input, start, event.end);
            if depth <= 1 && source.len() > 0 {
                seq![
                    Spanned {
                        node: ElementView::List { source },
                        span: Span { start, end: event.end },
                    },
                ]
            } else {
                seq![]
            }
        },
        (TokenView::CodeBlockEnd, StateView::CodeBlock { language, code, span }) => seq![
            Spanned { node: ElementView::CodeBlock { language, code }, span },
        ],
        (TokenView::TableEnd, StateView::Table { headers, rows, row, cell, span }) => seq![
            Spanned { node: ElementView::Table { headers, rows }, span },
        ],
        (TokenView::Rule, StateView::List { .. }) => seq![],
        (TokenView::Rule, _) => seq![
            Spanned { node: ElementView::Separator, span: event_span(event) },
        ],
        _ => seq![],
    }
}

/// The state in which a sequence of events leaves the parser.
pub open spec fn state_after_all(events: Seq<EventView>) -> StateView
    decreases events.len(),
{
    if events.len() == 0 {
        StateView::Idle
    } else {
        state_after(state_after_all(events.drop_last()), events.last())
    }
}

/// The elements that a sequence of events completes, in order.
pub open spec fn elements_of(input: Seq<char>, events: Seq<EventView>) -> Seq<Spanned<ElementView>>
    decreases events.len(),
{
    if events.len() == 0 {
        seq![]
    } else {
        elements_of(input, events.drop_last()) + emitted(
            input,
            state_after_all(events.drop_last()),
            events.last(),
        )
    }
}

/// Whether an event begins a heading of a level that there is not.
pub open spec fn has_bad_level(event: EventView) -> bool {
    event.token matches TokenView::HeadingStart(level) && !(1 <= level <= 6)
}

/// The message for the first event that begins a heading of a level that there
/// is not, if there is one.
pub open spec fn level_error(events: Seq<EventView>) -> Option<Seq<char>>
    decreases events.len(),
{
    if events.len() == 0 {
        None
    } else if level_error(events.drop_last()) is Some {
        level_error(events.drop_last())
    } else if has_bad_level(events.last()) {
        Some("invalid heading level: "@ + decimal::digits(events.last().token->HeadingStart_0 as nat))
    } else {
        None
    }
}

/// The number of images in the paragraph that has begun.
spec fn pending(state: StateView) -> nat {
    match state {
        StateView::Paragraph(p) => p.images.len(),
        StateView::Image { within: Some(p), .. } => p.images.len(),
        _ => 0,
    }
}

/// Each event adds at most one to the elements and the images that wait.
proof fn lemma_step_size(input: Seq<char>, state: StateView, event: EventView)
    ensures
        emitted(input, state, event).len() + pending(state_after(state, event)) <= pending(state)
            + 1,
{
}

/// The state with `s` behind the text that it gathers.
fn push_text(state: State, s: &str) -> (r: State)
    ensures
        r@ == with_text(state@, s@),
{
    match state {
        State::Heading { level, mut text, span } => {
            text.append(s);
            State::Heading { level, text, span }
        },
        State::Paragraph(mut p) => {
            p.text.append(s);
            State::Paragraph(p)
        },
        State::Image { mut alt, path, span, within } => {
            alt.append(s);
            State::Image { alt, path, span, within }
        },
        State::Link { mut text, href, span } => {
            text.append(s);
            State::Link { text, href, span }
        },
        State::CodeBlock { language, mut code, span } => {
            code.append(s);
            State::CodeBlock { language, code, span }
        },
        State::Table { headers, rows, row, mut cell, span } => {
            cell.append(s);
            State::Table { headers, rows, row, cell, span }
        },
        State::Blockquote { mut text, span } => {
            text.append(s);
            State::Blockquote { text, span }
        },
        State::List { start, depth } => State::List { start, depth },
        State::Idle => State::Idle,
    }
}

/// Follows an event that begins something.
fn follow_start(state: State, event: &MarkdownEvent) -> (r: State)
    requires
        markdown::is_start(event@.token),
        !has_bad_level(event@),
        state matches State::List { depth, .. } ==> depth < usize::MAX,
    ensures
        r@ == state_after_start(state@, event@),
{
    if let State::List { start, depth } = state {
        return match &event.token {
            MarkdownToken::ListStart => State::List { start, depth: depth + 1 },
            _ => State::List { start, depth },
        };
    }
    let span = Span { start: event.start, end: event.end };
    match &event.token {
        MarkdownToken::HeadingStart(level) => {
            match HeadingLevel::new(*level) {
                Some(level) => State::Heading { level, text: String::new(), span },
                None => state,
            }
        },
        MarkdownToken::ParagraphStart => match state {
            State::Blockquote { text, span } => State::Blockquote { text, span },
            _ => {
                let p = OpenParagraph { text: String::new(), images: Vec::new(), span };
                proof {
                    assert(spanned_views(p.images@) =~= seq![]);
                }
                State::Paragraph(p)
            },
        },
        MarkdownToken::ImageStart(path) => {
            let within = match state {
                State::Paragraph(p) => Some(p),
                _ => None,
            };
            State::Image { alt: String::new(), path: path.clone(), span, within }
        },
        MarkdownToken::LinkStart(href) => {
            let inline = match &state {
                State::Paragraph(p) => !trim(p.text.as_str()).as_str().is_empty(),
                State::Blockquote { .. } => true,
                _ => false,
            };
            if inline {
                state
            } else {
                State::Link { text: String::new(), href: href.clone(), span }
            }
        },
        MarkdownToken::QuoteStart => State::Blockquote { text: String::new(), span },
        MarkdownToken::ListStart => State::List { start: event.start, depth: 1 },
        MarkdownToken::FencedStart(info) => {
            let language = if info.as_str().is_empty() {
                None
            } else {
                Some(info.clone())
            };
            State::CodeBlock { language, code: String::new(), span }
        },
        MarkdownToken::IndentedStart => State::CodeBlock {
            language: None,
            code: String::new(),
            span,
        },
        MarkdownToken::TableStart => {
            let headers: Vec<String> = Vec::new();
            let rows: Vec<Vec<String>> = Vec::new();
            let row: Vec<String> = Vec::new();
            proof {
                assert(text::texts(headers@) =~= seq![]);
                assert(text::texts(row@) =~= seq![]);
                assert(document::row_views(rows@) =~= seq![]);
            }
            State::Table { headers, rows, row, cell: String::new(), span }
        },
        _ => state,
    }
}

/// Follows an event that has no inside and completes no element.
fn follow_leaf(state: State, token: &MarkdownToken) -> (r: State)
    requires
        !markdown::is_start(token@),
        !markdown::is_end(token@),
    ensures
        forall|event: EventView|
            event.token == token@ ==> r@ == #[trigger] state_after_leaf(state@, event),
{
    match token {
        MarkdownToken::Rule => match state {
            State::List { start, depth } => State::List { start, depth },
            _ => State::Idle,
        },
        MarkdownToken::Text(s) => push_text(state, s.as_str()),
        MarkdownToken::Code(s) => {
            let in_table = match &state {
                State::Table { .. } => true,
                _ => false,
            };
            if in_table {
                let mut cell = "<code>".to_owned();
                cell.append(escape_html(s.as_str()).as_str());
                cell.append("</code>");
                push_text(state, cell.as_str())
            } else {
                push_text(state, s.as_str())
            }
        },
        MarkdownToken::Break => {
            let gathers = match &state {
                State::Paragraph(_) => true,
                State::Heading { .. } => true,
                State::Blockquote { .. } => true,
                _ => false,
            };
            if gathers {
                proof {
                    reveal_strlit(" ");
                    assert(" "@ =~= seq![' ']);
                }
                push_text(state, " ")
            } else {
                state
            }
        },
        _ => state,
    }
}

/// The text of a paragraph that ends.
fn text_of_paragraph(input: &str, p: &OpenParagraph) -> (r: String)
    ensures
        r@ == paragraph_text(input@, p@),
{
    if p.images.len() == 0 {
        if let Some(source) = get(input, p.span.start, p.span.end) {
            let t = trim(source);
            if !t.as_str().is_empty() {
                return t;
            }
        }
    }
    trim(p.text.as_str())
}

/// The element that a link makes.
fn node_of_link(text: String, href: String) -> (r: ContentElement)
    ensures
        r@ == link_node(text@, href@),
{
    if is_link_expression(href.as_str()) {
        match parse_link_target(href.as_str()) {
            Ok(target) => ContentElement::LinkExpression {
                text: parse_link_text(text.as_str()),
                target,
            },
            Err(_) => ContentElement::Link { text, href },
        }
    } else {
        ContentElement::Link { text, href }
    }
}

/// Puts the images behind the elements.
fn push_all(
    elements: &mut im::Vector<Spanned<ContentElement>>,
    images: Vec<Spanned<ContentElement>>,
)
    requires
        vector::element_items(*old(elements)).len() + images.len() <= usize::MAX,
    ensures
        vector::element_items(*final(elements)) == vector::element_items(*old(elements))
            + spanned_views(images@),
{
    let mut i: usize = 0;
    let ghost first = vector::element_items(*elements);
    while i < images.len()
        invariant
            i <= images.len(),
            first.len() + images.len() <= usize::MAX,
            vector::element_items(*elements) == first + spanned_views(images@).take(i as int),
        decreases images.len() - i,
    {
        push_element(elements, images[i].clone());
        i += 1;
        proof {
            assert(spanned_views(images@).take(i as int) == spanned_views(images@).take(
                i - 1,
            ).push(images@[i - 1]@));
            assert(vector::element_items(*elements) == first + spanned_views(images@).take(i as int));
        }
    }
    proof {
        assert(spanned_views(images@).take(i as int) == spanned_views(images@));
    }
}

/// Follows an event that ends something, and puts what it completes behind the
/// elements.
#[verifier::rlimit(40)]
fn follow_end(
    input: &str,
    state: State,
    event: &MarkdownEvent,
    elements: &mut im::Vector<Spanned<ContentElement>>,
) -> (r: State)
    requires
        markdown::is_end(event@.token),
        vector::element_items(*old(elements)).len() + pending(state@) < usize::MAX,
    ensures
        r@ == state_after_end(state@, event@),
        vector::element_items(*final(elements)) == vector::element_items(*old(elements)) + emitted(
            input@,
            state@,
            event@,
        ),
{
    let ghost first = vector::element_items(*elements);
    let ghost view = state@;
    match (&event.token, state) {
        (MarkdownToken::HeadingEnd, State::Heading { level, text, span }) => {
            push_element(elements, Spanned { node: ContentElement::Heading { level, text }, span });
            State::Idle
        },
        (MarkdownToken::ParagraphEnd, State::Paragraph(p)) => {
            let ghost pv = p@;
            if !trim(p.text.as_str()).as_str().is_empty() {
                let text = text_of_paragraph(input, &p);
                push_element(
                    elements,
                    Spanned { node: ContentElement::Paragraph { text }, span: p.span },
                );
            }
            push_all(elements, p.images);
            proof {
                assert(vector::element_items(*elements) =~= first + emitted(
                    input@,
                    StateView::Paragraph(pv),
                    event@,
                ));
            }
            State::Idle
        },
        (MarkdownToken::ImageEnd, State::Image { alt, path, span, within }) => {
            let alt = if alt.as_str().is_empty() {
                None
            } else {
                Some(alt)
            };
            let image = Spanned { node: ContentElement::Image { alt, path }, span };
            match within {
                Some(mut p) => {
                    let ghost before = p.images@;
                    p.images.push(image);
                    proof {
                        assert(spanned_views(p.images@) =~= spanned_views(before).push(image@));
                    }
                    State::Paragraph(p)
                },
                None => {
                    push_element(elements, image);
                    State::Idle
                },
            }
        },
        (MarkdownToken::LinkEnd, State::Link { text, href, span }) => {
            push_element(elements, Spanned { node: node_of_link(text, href), span });
            State::Idle
        },
        (MarkdownToken::QuoteEnd, State::Blockquote { text, span }) => {
            let text = trim(text.as_str());
            if !text.as_str().is_empty() {
                push_element(elements, Spanned { node: ContentElement::Blockquote { text }, span });
            }
            State::Idle
        },
        (MarkdownToken::ListEnd, State::List { start, depth }) => {
            if depth <= 1 {
                let source = match get(input, start, event.end) {
                    Some(source) => trim(source),
                    None => String::new(),
                };
                if !source.as_str().is_empty() {
                    push_element(
                        elements,
                        Spanned {
                            node: ContentElement::List { source },
                            span: Span { start, end: event.end },
                        },
                    );
                }
                State::Idle
            } else {
                State::List { start, depth: depth - 1 }
            }
        },
        (MarkdownToken::CodeBlockEnd, State::CodeBlock { language, code, span }) => {
            push_element(
                elements,
                Spanned { node: ContentElement::CodeBlock { language, code }, span },
            );
            State::Idle
        },
        (MarkdownToken::TableHeadEnd, State::Table { headers: _, rows, row, cell, span }) => {
            let fresh: Vec<String> = Vec::new();
            proof {
                assert(text::texts(fresh@) =~= seq![]);
            }
            State::Table { headers: row, rows, row: fresh, cell, span }
        },
        (MarkdownToken::TableCellEnd, State::Table { headers, rows, mut row, cell, span }) => {
            let ghost before = row@;
            let text = trim(cell.as_str());
            row.push(text);
            proof {
                assert(text::texts(row@) =~= text::texts(before).push(text@));
            }
            State::Table { headers, rows, row, cell: String::new(), span }
        },
        (MarkdownToken::TableRowEnd, State::Table { headers, mut rows, row, cell, span }) => {
            let ghost before = rows@;
            let ghost last = row@;
            rows.push(row);
            let fresh: Vec<String> = Vec::new();
            proof {
                assert(document::row_views(rows@) =~= document::row_views(before).push(
                    text::texts(last),
                ));
                assert(text::texts(fresh@) =~= seq![]);
            }
            State::Table { headers, rows, row: fresh, cell, span }
        },
        (MarkdownToken::TableEnd, State::Table { headers, rows, row: _, cell: _, span }) => {
            push_element(elements, Spanned { node: ContentElement::Table { headers, rows }, span });
            State::Idle
        },
        (_, state) => state,
    }
}

/// A message for a prefix of the events is the message for all of them.
proof fn lemma_level_error(events: Seq<EventView>, k: int)
    requires
        0 <= k <= events.len(),
        level_error(events.take(k)) is Some,
    ensures
        level_error(events) == level_error(events.take(k)),
    decreases events.len(),
{
    if k == events.len() {
        assert(events.take(k) == events);
    } else {
        assert(events.drop_last().take(k) == events.take(k));
        lemma_level_error(events.drop_last(), k);
    }
}

/// Where no event has a level that there is not, no message is owed.
proof fn lemma_no_level_error(events: Seq<EventView>)
    requires
        forall|i: int| 0 <= i < events.len() ==> !has_bad_level(#[trigger] events[i]),
    ensures
        level_error(events) is None,
    decreases events.len(),
{
    if events.len() > 0 {
        assert forall|i: int| 0 <= i < events.drop_last().len() implies !has_bad_level(
            #[trigger] events.drop_last()[i],
        ) by {
            assert(events.drop_last()[i] == events[i]);
        }
        lemma_no_level_error(events.drop_last());
        assert(events.last() == events[events.len() - 1]);
    }
}

/// The content elements that the events of the source text `input` make.
///
/// It fails where an event begins a heading of a level that there is not.
pub fn build_document(input: &str, events: &Vec<MarkdownEvent>) -> (r: Result<
    FlatDocument,
    ContentError,
>)
    ensures
        match r {
            Ok(doc) => level_error(markdown::event_views(events@)) is None && doc@ == elements_of(
                input@,
                markdown::event_views(events@),
            ),
            Err(e) => level_error(markdown::event_views(events@)) == Some(e@),
        },
{
    let mut elements = no_elements();
    let mut state = State::Idle;
    let ghost all = markdown::event_views(events@);
    let mut i: usize = 0;
    proof {
        assert(all.take(0) =~= seq![]);
    }
    while i < events.len()
        invariant
            i <= events.len(),
            all == markdown::event_views(events@),
            level_error(all.take(i as int)) is None,
            state@ == state_after_all(all.take(i as int)),
            vector::element_items(elements) == elements_of(input@, all.take(i as int)),
            vector::element_items(elements).len() + pending(state@) <= i,
            state matches State::List { depth, .. } ==> depth <= i,
        decreases events.len() - i,
    {
        let event = &events[i];
        proof {
            assert(all.take(i + 1).drop_last() == all.take(i as int));
            assert(all.take(i + 1).last() == event@);
            lemma_step_size(input@, state@, event@);
        }
        let ghost before = vector::element_items(elements);
        let ghost from = state@;
        match &event.token {
            MarkdownToken::HeadingStart(level) => {
                if !(1 <= *level && *level <= 6) {
                    let mut message = "invalid heading level: ".to_owned();
                    message.append(u64_text(*level as u64).as_str());
                    proof {
                        lemma_level_error(all, i + 1);
                    }
                    return Err(ContentError::ParseError(message));
                }
                state = follow_start(state, event);
            },
            MarkdownToken::ParagraphStart
            | MarkdownToken::ImageStart(_)
            | MarkdownToken::LinkStart(_)
            | MarkdownToken::QuoteStart
            | MarkdownToken::ListStart
            | MarkdownToken::FencedStart(_)
            | MarkdownToken::IndentedStart
            | MarkdownToken::TableStart => {
                state = follow_start(state, event);
            },
            MarkdownToken::Rule => {
                let in_list = match &state {
                    State::List { .. } => true,
                    _ => false,
                };
                if !in_list {
                    push_element(
                        &mut elements,
                        Spanned {
                            node: ContentElement::Separator,
                            span: Span { start: event.start, end: event.end },
                        },
                    );
                }
                state = follow_leaf(state, &event.token);
                assert(state@ == state_after_leaf(from, event@));
            },
            MarkdownToken::Text(_)
            | MarkdownToken::Code(_)
            | MarkdownToken::Break
            | MarkdownToken::Other => {
                state = follow_leaf(state, &event.token);
                assert(state@ == state_after_leaf(from, event@));
            },
            _ => {
                state = follow_end(input, state, event, &mut elements);
            },
        }
        proof {
            assert(state@ == state_after(from, event@));
            assert(vector::element_items(elements) =~= before + emitted(input@, from, event@));
        }
        i += 1;
    }
    proof {
        assert(all.take(i as int) == all);
    }
    Ok(FlatDocument { elements })
}

/// Parse a markdown content document.
///
/// The elements are those that the markdown events of the text make; each
/// carries its byte range in the source. No text is refused. The slotted form
/// comes from [`crate::slot_assignment::parse_and_assign`].
pub fn parse_document(input: &str) -> (r: Result<FlatDocument, ContentError>)
    ensures
        r matches Ok(doc) && doc@ == elements_of(input@, markdown::markdown_events(input@)),
{
    let events = read_events(input);
    proof {
        let views = markdown::event_views(events@);
        assert forall|i: int| 0 <= i < views.len() implies !has_bad_level(#[trigger] views[i]) by {
            assert(views[i] == events@[i]@);
        }
        lemma_no_level_error(views);
    }
    build_document(input, &events)
}

/// The number of line feeds in `s`.
pub open spec fn newline_count(s: Seq<char>) -> nat
    decreases s.len(),
{
    if s.len() == 0 {
        0
    } else {
        newline_count(s.drop_last()) + (if s.last() == '\n' {
            1nat
        } else {
            0
        })
    }
}

/// What follows the last line feed of `s`.
pub open spec fn last_line(s: Seq<char>) -> Seq<char>
    decreases s.len(),
{
    if s.len() == 0 || s.last() == '\n' {
        seq![]
    } else {
        last_line(s.drop_last()).push(s.last())
    }
}

/// The number of UTF-16 code units of `s`.
pub open spec fn utf16_len(s: Seq<char>) -> nat
    decreases s.len(),
{
    if s.len() == 0 {
        0
    } else {
        utf16_len(s.drop_last()) + (if s.last() as u32 >= 0x10000 {
            2nat
        } else {
            1
        })
    }
}

/// The part of `src` before a byte offset, or all of it where the offset is
/// past the end.
pub open spec fn prefix_before(src: Seq<char>, byte_offset: usize) -> Seq<char> {
    if byte_offset <= encode_utf8(src).len() {
        decode_utf8(encode_utf8(src).subrange(0, byte_offset as int))
    } else {
        src
    }
}

/// Convert a byte offset in `src` to a zero-based line and character, as the
/// language server protocol counts them: the character is an offset in UTF-16
/// code units. An offset past the end stands for the end.
///
/// The offset has to be a boundary of characters.
pub fn byte_to_position(src: &str, byte_offset: usize) -> (r: (u32, u32))
    requires
        is_offset(src@, byte_offset),
    ensures
        r.0 == position_of(src@, byte_offset).0 as u32,
        r.1 == position_of(src@, byte_offset).1 as u32,
{
    let prefix: &str = if byte_offset <= byte_len(src) {
        byte_prefix(src, byte_offset)
    } else {
        src
    };
    let v = chars_of(prefix);
    let mut line: usize = 0;
    let mut character: u128 = 0;
    let mut i: usize = 0;
    proof {
        assert(v@.take(0) =~= seq![]);
    }
    while i < v.len()
        invariant
            i <= v.len(),
            line <= i,
            character <= 2 * i,
            line == newline_count(v@.take(i as int)),
            character == utf16_len(last_line(v@.take(i as int))),
        decreases v.len() - i,
    {
        let c = v[i];
        proof {
            assert(v@.take(i + 1).drop_last() == v@.take(i as int));
            assert(v@.take(i + 1).last() == c);
            let l = last_line(v@.take(i as int));
            assert(l.push(c).drop_last() == l);
        }
        if c == '\n' {
            line += 1;
            character = 0;
        } else if c as u32 >= 0x10000 {
            character += 2;
        } else {
            character += 1;
        }
        i += 1;
    }
    proof {
        assert(v@.take(i as int) == v@);
    }
    (line as u32, character as u32)
}

/// Where a byte offset lies: the number of line feeds before it, and the number of
/// UTF-16 code units between the last of these and the offset.
pub open spec fn position_of(src: Seq<char>, byte_offset: usize) -> (nat, nat) {
    let prefix = prefix_before(src, byte_offset);
    (newline_count(prefix), utf16_len(last_line(prefix)))
}

/// Whether an offset is past the end of a text or a boundary of its characters.
pub open spec fn is_offset(src: Seq<char>, byte_offset: usize) -> bool {
    byte_offset <= encode_utf8(src).len() ==> is_char_boundary(
        encode_utf8(src),
        byte_offset as int,
    )
}

/// The code units of two texts are those of the first and then those of the second.
proof fn lemma_utf16_concat(a: Seq<char>, b: Seq<char>)
    ensures
        utf16_len(a + b) == utf16_len(a) + utf16_len(b),
    decreases b.len(),
{
    if b.len() == 0 {
        assert(a + b =~= a);
    } else {
        lemma_utf16_concat(a, b.drop_last());
        assert((a + b).drop_last() =~= a + b.drop_last());
    }
}

/// What follows a text moves the position behind it on.
proof fn lemma_position_grows(p: Seq<char>, t: Seq<char>)
    ensures
        newline_count(p) <= newline_count(p + t),
        newline_count(p) == newline_count(p + t) ==> last_line(p + t) == last_line(p) + t,
    decreases t.len(),
{
    if t.len() == 0 {
        assert(p + t =~= p);
        assert(last_line(p) + t =~= last_line(p));
    } else {
        lemma_position_grows(p, t.drop_last());
        assert((p + t).drop_last() =~= p + t.drop_last());
        assert((p + t).last() == t.last());
        if newline_count(p) == newline_count(p + t) {
            assert((last_line(p) + t.drop_last()).push(t.last()) =~= last_line(p) + t);
        }
    }
}

/// The text before an offset is the start of the text before a later one.
proof fn lemma_prefixes_nest(src: Seq<char>, a: usize, b: usize) -> (t: Seq<char>)
    requires
        a <= b,
        is_offset(src, a),
        is_offset(src, b),
    ensures
        prefix_before(src, b) == prefix_before(src, a) + t,
{
    let bytes = encode_utf8(src);
    encode_utf8_valid_utf8(src);
    encode_utf8_decode_utf8(src);
    is_char_boundary_start_end_of_seq(bytes);
    if a > bytes.len() {
        assert(src + Seq::<char>::empty() =~= src);
        Seq::empty()
    } else {
        let to: int = if b <= bytes.len() {
            b as int
        } else {
            bytes.len() as int
        };
        let front = bytes.subrange(0, to);
        if to == bytes.len() {
            assert(front =~= bytes);
        }
        text::lemma_boundary_in_prefix(src, a as int, to);
        decode_utf8_split(front, a as int);
        assert(front.subrange(0, a as int) =~= bytes.subrange(0, a as int));
        decode_utf8(front.subrange(a as int, front.len() as int))
    }
}

/// A later offset has no earlier position.
pub proof fn law_positions_grow(src: Seq<char>, a: usize, b: usize)
    requires
        a <= b,
        is_offset(src, a),
        is_offset(src, b),
    ensures
        position_of(src, a).0 <= position_of(src, b).0,
        position_of(src, a).0 == position_of(src, b).0 ==> position_of(src, a).1 <= position_of(
            src,
            b,
        ).1,
{
    let p = prefix_before(src, a);
    let t = lemma_prefixes_nest(src, a, b);
    lemma_position_grows(p, t);
    lemma_utf16_concat(last_line(p), t);
}

/// Every offset past the end has the position of the end.
pub proof fn law_positions_end_with_the_text(src: Seq<char>, byte_offset: usize, end: usize)
    requires
        end == encode_utf8(src).len(),
        byte_offset >= end,
    ensures
        position_of(src, byte_offset) == position_of(src, end),
{
    let bytes = encode_utf8(src);
    encode_utf8_decode_utf8(src);
    assert(bytes.subrange(0, end as int) =~= bytes);
}

/// Right behind a line feed a line begins.
pub proof fn law_line_begins_behind_line_feed(src: Seq<char>, byte_offset: usize)
    requires
        prefix_before(src, byte_offset).len() > 0,
        prefix_before(src, byte_offset).last() == '\n',
    ensures
        position_of(src, byte_offset).1 == 0,
{
}

/// A text has no more line feeds, and no more code units, than bytes.
proof fn lemma_counts_are_small(s: Seq<char>)
    ensures
        newline_count(s) <= s.len(),
        s.len() <= encode_utf8(s).len(),
        utf16_len(last_line(s)) <= utf16_len(s),
        utf16_len(s) <= encode_utf8(s).len(),
    decreases s.len(),
{
    if s.len() > 0 {
        let tail = s.skip(1);
        let head = seq![s[0]];
        lemma_counts_are_small(tail);
        assert(s =~= head + tail);
        lemma_utf16_concat(head, tail);
        assert(head.drop_last() =~= seq![]);
        assert(utf16_len(head) == (if s[0] as u32 >= 0x10000 {
            2nat
        } else {
            1
        })) by {
            assert(utf16_len(head.drop_last()) == 0);
        }
        assert(tail =~= s.drop_first());
        char_is_scalar(s[0]);
        lemma_newlines_are_few(s);
        lemma_last_line_is_short(s);
    }
}

/// A text has no more line feeds than characters.
proof fn lemma_newlines_are_few(s: Seq<char>)
    ensures
        newline_count(s) <= s.len(),
    decreases s.len(),
{
    if s.len() > 0 {
        lemma_newlines_are_few(s.drop_last());
    }
}

/// The last line of a text has no more code units than the text.
proof fn lemma_last_line_is_short(s: Seq<char>)
    ensures
        utf16_len(last_line(s)) <= utf16_len(s),
    decreases s.len(),
{
    if s.len() > 0 {
        lemma_last_line_is_short(s.drop_last());
        if s.last() != '\n' {
            let l = last_line(s.drop_last());
            assert(l.push(s.last()).drop_last() =~= l);
        }
    }
}

/// The positions in a text whose length fits in 32 bits fit in 32 bits.
pub proof fn law_positions_fit(src: Seq<char>, byte_offset: usize)
    requires
        encode_utf8(src).len() <= u32::MAX,
        is_offset(src, byte_offset),
    ensures
        position_of(src, byte_offset).0 <= u32::MAX,
        position_of(src, byte_offset).1 <= u32::MAX,
{
    let bytes = encode_utf8(src);
    let p = prefix_before(src, byte_offset);
    encode_utf8_valid_utf8(src);
    if byte_offset <= bytes.len() {
        valid_utf8_split(bytes, byte_offset as int);
        decode_utf8_encode_utf8(bytes.subrange(0, byte_offset as int));
    }
    lemma_counts_are_small(p);
}

/// Whether an event comes where it begins in the source: it opens something, or has no
/// inside.
pub open spec fn is_opening(event: EventView) -> bool {
    !markdown::is_end(event.token) && !(event.token is Other)
}

/// Whether the ranges of events lie within the first bytes of the source and are in
/// order: what opens later begins no earlier, and nothing ends before what came before
/// it begins.
pub open spec fn ranges_in_order(events: Seq<EventView>, size: int) -> bool {
    &&& forall|i: int|
        0 <= i < events.len() ==> (#[trigger] events[i]).start <= events[i].end <= size
    &&& forall|i: int, j: int|
        0 <= i < j < events.len() && is_opening(#[trigger] events[i]) && is_opening(
            #[trigger] events[j],
        ) ==> events[i].start <= events[j].start
    &&& forall|i: int, j: int|
        0 <= i < j < events.len() ==> (#[trigger] events[i]).start <= (#[trigger] events[j]).end
}

/// Whether the spans of elements lie within the first bytes of the source and are in
/// order: none begins before the one before it.
pub open spec fn spans_in_order(elements: Seq<Spanned<ElementView>>, size: int) -> bool {
    &&& forall|i: int|
        0 <= i < elements.len() ==> (#[trigger] elements[i]).span.start <= elements[i].span.end
            <= size
    &&& forall|i: int, j: int|
        0 <= i < j < elements.len() ==> (#[trigger] elements[i]).span.start <= (
        #[trigger] elements[j]).span.start
}

/// Where the last of the elements begins.
spec fn last_start(elements: Seq<Spanned<ElementView>>) -> int {
    if elements.len() == 0 {
        0
    } else {
        elements.last().span.start as int
    }
}

/// Where the last event begins that opens something.
spec fn last_opening(events: Seq<EventView>) -> int
    decreases events.len(),
{
    if events.len() == 0 {
        0
    } else if is_opening(events.last()) {
        events.last().start as int
    } else {
        last_opening(events.drop_last())
    }
}

/// Whether a span lies within the source and begins between two places.
spec fn begins_between(span: Span, low: int, high: int, size: int) -> bool {
    low <= span.start <= high && span.start <= span.end <= size
}

/// Whether a paragraph that has begun begins between two places, and so do its images
/// behind it, in order.
spec fn paragraph_between(p: ParagraphView, low: int, high: int, size: int) -> bool {
    &&& begins_between(p.span, low, high, size)
    &&& spans_in_order(p.images, size)
    &&& forall|i: int|
        0 <= i < p.images.len() ==> p.span.start <= (#[trigger] p.images[i]).span.start <= high
}

/// Whether what the parser is inside of begins between two places.
spec fn state_between(state: StateView, low: int, high: int, size: int) -> bool {
    &&& low <= high
    &&& match state {
        StateView::Idle => true,
        StateView::Heading { span, .. } => begins_between(span, low, high, size),
        StateView::Paragraph(p) => paragraph_between(p, low, high, size),
        StateView::Image { span, within, .. } => begins_between(span, low, high, size) && match within {
            Some(p) => paragraph_between(p, low, span.start as int, size),
            None => true,
        },
        StateView::Link { span, .. } => begins_between(span, low, high, size),
        StateView::CodeBlock { span, .. } => begins_between(span, low, high, size),
        StateView::Table { span, .. } => begins_between(span, low, high, size),
        StateView::Blockquote { span, .. } => begins_between(span, low, high, size),
        StateView::List { start, .. } => low <= start <= high,
    }
}

/// Elements that begin behind others are in order with them.
proof fn lemma_spans_concat(
    a: Seq<Spanned<ElementView>>,
    b: Seq<Spanned<ElementView>>,
    size: int,
)
    requires
        spans_in_order(a, size),
        spans_in_order(b, size),
        b.len() > 0 ==> last_start(a) <= b[0].span.start,
    ensures
        spans_in_order(a + b, size),
{
    let all = a + b;
    assert forall|i: int, j: int| 0 <= i < j < all.len() implies (#[trigger] all[i]).span.start <= (
    #[trigger] all[j]).span.start by {
        if j < a.len() {
            assert(a[i].span.start <= a[j].span.start);
        } else if i >= a.len() {
            assert(b[i - a.len()].span.start <= b[j - a.len()].span.start);
        } else {
            let last = a.len() - 1;
            assert(a[last] == a.last());
            if i < last {
                assert(a[i].span.start <= a[last].span.start);
            }
            if j > a.len() {
                assert(b[0].span.start <= b[j - a.len()].span.start);
            }
        }
    }
    assert forall|i: int| 0 <= i < all.len() implies (#[trigger] all[i]).span.start
        <= all[i].span.end <= size by {
        if i < a.len() {
            assert(a[i].span.start <= a[i].span.end <= size);
        } else {
            assert(b[i - a.len()].span.start <= b[i - a.len()].span.end <= size);
        }
    }
}

/// What an event completes begins between two places where what the parser is inside of
/// does, and is in order.
proof fn lemma_emitted_in_order(
    input: Seq<char>,
    state: StateView,
    event: EventView,
    low: int,
    high: int,
    size: int,
)
    requires
        state_between(state, low, high, size),
        event.start <= event.end <= size,
        high <= event.end,
        is_opening(event) ==> high <= event.start,
    ensures
        spans_in_order(emitted(input, state, event), size),
        forall|i: int|
            0 <= i < emitted(input, state, event).len() ==> low <= (#[trigger] emitted(
                input,
                state,
                event,
            )[i]).span.start && (emitted(input, state, event)[i].span.start <= high || (is_opening(
                event,
            ) && emitted(input, state, event)[i].span.start == event.start)),
{
    let out = emitted(input, state, event);
    if let StateView::Paragraph(p) = state {
        if event.token is ParagraphEnd {
            if text::trimmed(p.text).len() > 0 {
                let first = seq![
                    Spanned {
                        node: ElementView::Paragraph { text: paragraph_text(input, p) },
                        span: p.span,
                    },
                ];
                assert(spans_in_order(first, size));
                if p.images.len() > 0 {
                    assert(p.span.start <= p.images[0].span.start);
                }
                lemma_spans_concat(first, p.images, size);
            }
        }
    }
}

/// An event leaves the parser inside of something that begins between two places.
proof fn lemma_state_between(
    input: Seq<char>,
    state: StateView,
    event: EventView,
    low: int,
    high: int,
    size: int,
)
    requires
        state_between(state, low, high, size),
        event.start <= event.end <= size,
        is_opening(event) ==> high <= event.start,
    ensures
        state_between(
            state_after(state, event),
            low,
            if is_opening(event) {
                event.start as int
            } else {
                high
            },
            size,
        ),
{
    if let StateView::Image { alt, path, span, within: Some(p) } = state {
        let image = image_element(alt, path, span);
        let images = p.images.push(image);
        assert forall|i: int| 0 <= i < p.images.len() implies (#[trigger] p.images[i]).span.start
            <= span.start by {}
        assert(images =~= p.images + seq![image]);
        assert(spans_in_order(seq![image], size));
        if p.images.len() > 0 {
            assert(p.images[p.images.len() - 1] == p.images.last());
        }
        lemma_spans_concat(p.images, seq![image], size);
    }
}

/// The last event that opens something is one of the events.
proof fn lemma_last_opening(events: Seq<EventView>)
    ensures
        last_opening(events) == 0 || exists|i: int|
            0 <= i < events.len() && is_opening(#[trigger] events[i]) && events[i].start
                == last_opening(events),
    decreases events.len(),
{
    if events.len() > 0 {
        let front = events.drop_last();
        lemma_last_opening(front);
        if is_opening(events.last()) {
            assert(events[events.len() - 1] == events.last());
        } else if last_opening(front) != 0 {
            let i = choose|i: int|
                0 <= i < front.len() && is_opening(#[trigger] front[i]) && front[i].start
                    == last_opening(front);
            assert(events[i] == front[i]);
        }
    }
}

/// The elements are in order, and what the parser is inside of begins behind them.
proof fn lemma_spans_in_order(input: Seq<char>, events: Seq<EventView>, size: int)
    requires
        ranges_in_order(events, size),
    ensures
        spans_in_order(elements_of(input, events), size),
        state_between(
            state_after_all(events),
            last_start(elements_of(input, events)),
            last_opening(events),
            size,
        ),
    decreases events.len(),
{
    if events.len() > 0 {
        let front = events.drop_last();
        let event = events.last();
        let n = events.len() - 1;
        assert(events[n] == event);
        assert(ranges_in_order(front, size)) by {
            assert forall|i: int| 0 <= i < front.len() implies (#[trigger] front[i]).start
                <= front[i].end <= size by {
                assert(front[i] == events[i]);
            }
            assert forall|i: int, j: int|
                0 <= i < j < front.len() && is_opening(#[trigger] front[i]) && is_opening(
                    #[trigger] front[j],
                ) implies front[i].start <= front[j].start by {
                assert(front[i] == events[i] && front[j] == events[j]);
            }
            assert forall|i: int, j: int| 0 <= i < j < front.len() implies (
            #[trigger] front[i]).start <= (#[trigger] front[j]).end by {
                assert(front[i] == events[i] && front[j] == events[j]);
            }
        }
        lemma_spans_in_order(input, front, size);
        lemma_last_opening(front);
        let high = last_opening(front);
        if high != 0 {
            let i = choose|i: int|
                0 <= i < front.len() && is_opening(#[trigger] front[i]) && front[i].start == high;
            assert(events[i] == front[i]);
            assert(events[i].start <= events[n].end);
            if is_opening(event) {
                assert(events[i].start <= events[n].start);
            }
        }
        let before = elements_of(input, front);
        let state = state_after_all(front);
        let low = last_start(before);
        let out = emitted(input, state, event);
        lemma_emitted_in_order(input, state, event, low, high, size);
        lemma_spans_concat(before, out, size);
        lemma_state_behind(input, state, event, low, high, size);
        let all = elements_of(input, events);
        if out.len() > 0 {
            assert(all.last() == out.last());
        } else {
            assert(all =~= before);
        }
    }
}

/// What the parser is inside of after an event begins behind what the event completes.
proof fn lemma_state_behind(
    input: Seq<char>,
    state: StateView,
    event: EventView,
    low: int,
    high: int,
    size: int,
)
    requires
        state_between(state, low, high, size),
        event.start <= event.end <= size,
        high <= event.end,
        is_opening(event) ==> high <= event.start,
    ensures
        ({
            let out = emitted(input, state, event);
            let floor = if out.len() > 0 {
                last_start(out)
            } else {
                low
            };
            state_between(
                state_after(state, event),
                floor,
                if is_opening(event) {
                    event.start as int
                } else {
                    high
                },
                size,
            )
        }),
{
    let out = emitted(input, state, event);
    lemma_state_between(input, state, event, low, high, size);
    if out.len() > 0 {
        lemma_emitted_in_order(input, state, event, low, high, size);
        assert(out[out.len() - 1] == out.last());
        assert(state_after(state, event) is Idle);
    }
}

/// Where the ranges of the events lie within the source and are in order, so do the
/// spans of the elements, and are.
pub proof fn law_spans_keep_the_order_of_events(
    input: Seq<char>,
    events: Seq<EventView>,
    size: int,
)
    requires
        ranges_in_order(events, size),
    ensures
        spans_in_order(elements_of(input, events), size),
{
    lemma_spans_in_order(input, events, size);
}

/// Whether a token writes a text where line breaks count: a text or inline code writes
/// itself, a line break a space.
pub open spec fn writes_inline(token: TokenView, s: Seq<char>) -> bool {
    match token {
        TokenView::Text(t) => t == s,
        TokenView::Code(t) => t == s,
        TokenView::Break => s == seq![' '],
        _ => false,
    }
}

/// Whether a token writes a text where line breaks do not count: a text or inline code
/// writes itself.
pub open spec fn writes_plain(token: TokenView, s: Seq<char>) -> bool {
    match token {
        TokenView::Text(t) => t == s,
        TokenView::Code(t) => t == s,
        TokenView::Break => s == Seq::<char>::empty(),
        _ => false,
    }
}

/// Whether events write the given texts, one each, where line breaks count.
pub open spec fn write_inline(events: Seq<EventView>, texts: Seq<Seq<char>>) -> bool {
    &&& events.len() == texts.len()
    &&& forall|i: int|
        0 <= i < events.len() ==> writes_inline((#[trigger] events[i]).token, texts[i])
}

/// Whether events write the given texts, one each, where line breaks do not count.
pub open spec fn write_plain(events: Seq<EventView>, texts: Seq<Seq<char>>) -> bool {
    &&& events.len() == texts.len()
    &&& forall|i: int|
        0 <= i < events.len() ==> writes_plain((#[trigger] events[i]).token, texts[i])
}

/// To gather two texts one after the other is to gather both at once, and to gather an
/// empty one is to gather nothing.
proof fn lemma_with_texts(state: StateView, a: Seq<char>, b: Seq<char>)
    ensures
        with_text(with_text(state, a), b) == with_text(state, a + b),
        with_text(state, Seq::<char>::empty()) == state,
{
    let none = Seq::<char>::empty();
    match state {
        StateView::Heading { level, text, span } => {
            assert(text + a + b =~= text + (a + b));
            assert(text + none =~= text);
        },
        StateView::Paragraph(p) => {
            assert(p.text + a + b =~= p.text + (a + b));
            assert(p.text + none =~= p.text);
        },
        StateView::Image { alt, path, span, within } => {
            assert(alt + a + b =~= alt + (a + b));
            assert(alt + none =~= alt);
        },
        StateView::Link { text, href, span } => {
            assert(text + a + b =~= text + (a + b));
            assert(text + none =~= text);
        },
        StateView::CodeBlock { language, code, span } => {
            assert(code + a + b =~= code + (a + b));
            assert(code + none =~= code);
        },
        StateView::Table { headers, rows, row, cell, span } => {
            assert(cell + a + b =~= cell + (a + b));
            assert(cell + none =~= cell);
        },
        StateView::Blockquote { text, span } => {
            assert(text + a + b =~= text + (a + b));
            assert(text + none =~= text);
        },
        _ => {},
    }
}

/// Events that write texts complete nothing, and what the parser is inside of gathers
/// all the texts.
proof fn lemma_inline(
    input: Seq<char>,
    before: Seq<EventView>,
    events: Seq<EventView>,
    texts: Seq<Seq<char>>,
)
    requires
        write_inline(events, texts),
        state_after_all(before) is Heading || state_after_all(before) is Paragraph
            || state_after_all(before) is Blockquote,
    ensures
        state_after_all(before + events) == with_text(
            state_after_all(before),
            texts.flatten_alt(),
        ),
        elements_of(input, before + events) == elements_of(input, before),
    decreases events.len(),
{
    let state = state_after_all(before);
    if events.len() == 0 {
        assert(before + events =~= before);
        lemma_with_texts(state, seq![], seq![]);
        assert(texts.flatten_alt() =~= Seq::<char>::empty());
    } else {
        let front = events.drop_last();
        let fewer = texts.drop_last();
        assert forall|i: int| 0 <= i < front.len() implies writes_inline(
            (#[trigger] front[i]).token,
            fewer[i],
        ) by {
            assert(front[i] == events[i]);
        }
        lemma_inline(input, before, front, fewer);
        let all = before + events;
        assert(all.drop_last() =~= before + front);
        assert(all.last() == events.last());
        assert(events[events.len() - 1] == events.last());
        assert(writes_inline(events.last().token, texts.last()));
        lemma_with_texts(state, fewer.flatten_alt(), texts.last());
        assert(emitted(input, state_after_all(before + front), events.last()) =~= seq![]);
        assert(elements_of(input, all) =~= elements_of(input, before));
    }
}

/// Events that write texts complete nothing, and what the parser is inside of gathers
/// all the texts.
proof fn lemma_plain(
    input: Seq<char>,
    before: Seq<EventView>,
    events: Seq<EventView>,
    texts: Seq<Seq<char>>,
)
    requires
        write_plain(events, texts),
        state_after_all(before) is Image || state_after_all(before) is Link || state_after_all(
            before,
        ) is CodeBlock,
    ensures
        state_after_all(before + events) == with_text(
            state_after_all(before),
            texts.flatten_alt(),
        ),
        elements_of(input, before + events) == elements_of(input, before),
    decreases events.len(),
{
    let state = state_after_all(before);
    if events.len() == 0 {
        assert(before + events =~= before);
        lemma_with_texts(state, seq![], seq![]);
        assert(texts.flatten_alt() =~= Seq::<char>::empty());
    } else {
        let front = events.drop_last();
        let fewer = texts.drop_last();
        assert forall|i: int| 0 <= i < front.len() implies writes_plain(
            (#[trigger] front[i]).token,
            fewer[i],
        ) by {
            assert(front[i] == events[i]);
        }
        lemma_plain(input, before, front, fewer);
        let all = before + events;
        assert(all.drop_last() =~= before + front);
        assert(all.last() == events.last());
        assert(events[events.len() - 1] == events.last());
        assert(writes_plain(events.last().token, texts.last()));
        lemma_with_texts(state, fewer.flatten_alt(), texts.last());
        let now = with_text(state, fewer.flatten_alt());
        lemma_with_texts(now, seq![], seq![]);
        assert(emitted(input, state_after_all(before + front), events.last()) =~= seq![]);
        assert(elements_of(input, all) =~= elements_of(input, before));
    }
}

/// One more event: what it leads to, and what it completes.
proof fn lemma_one_more(input: Seq<char>, before: Seq<EventView>, event: EventView)
    ensures
        state_after_all(before.push(event)) == state_after(state_after_all(before), event),
        elements_of(input, before.push(event)) == elements_of(input, before) + emitted(
            input,
            state_after_all(before),
            event,
        ),
{
    assert(before.push(event).drop_last() =~= before);
}

/// A heading is read with its level and all its text: the pieces between its start and
/// its end in order, none of them lost, with a space for each line break.
pub proof fn law_heading_keeps_all_its_text(
    input: Seq<char>,
    before: Seq<EventView>,
    level: u8,
    start: EventView,
    inner: Seq<EventView>,
    end: EventView,
    texts: Seq<Seq<char>>,
)
    requires
        !(state_after_all(before) is List),
        start.token == TokenView::HeadingStart(level),
        write_inline(inner, texts),
        end.token is HeadingEnd,
    ensures
        ({
            let all = (before.push(start) + inner).push(end);
            &&& elements_of(input, all) == elements_of(input, before).push(
                Spanned {
                    node: ElementView::Heading { level, text: texts.flatten_alt() },
                    span: Span { start: start.start, end: start.end },
                },
            )
            &&& state_after_all(all) is Idle
        }),
{
    let none = Seq::<char>::empty();
    lemma_one_more(input, before, start);
    lemma_inline(input, before.push(start), inner, texts);
    lemma_one_more(input, before.push(start) + inner, end);
    assert(none + texts.flatten_alt() =~= texts.flatten_alt());
    assert(emitted(input, state_after_all(before), start) =~= seq![]);
    let all = (before.push(start) + inner).push(end);
    let heading = Spanned {
        node: ElementView::Heading { level, text: texts.flatten_alt() },
        span: Span { start: start.start, end: start.end },
    };
    assert(emitted(input, state_after_all(before.push(start) + inner), end) =~= seq![heading]);
    assert(elements_of(input, all) =~= elements_of(input, before).push(heading));
}

/// A quote is read with all its text, whatever paragraphs and links are in it.
pub proof fn law_quote_keeps_all_its_text(
    input: Seq<char>,
    before: Seq<EventView>,
    start: EventView,
    opening: EventView,
    inner: Seq<EventView>,
    closing: EventView,
    end: EventView,
    texts: Seq<Seq<char>>,
)
    requires
        !(state_after_all(before) is List),
        start.token is QuoteStart,
        opening.token is ParagraphStart || opening.token is LinkStart,
        write_inline(inner, texts),
        closing.token is ParagraphEnd || closing.token is LinkEnd,
        end.token is QuoteEnd,
    ensures
        ({
            let all = (before.push(start).push(opening) + inner).push(closing).push(end);
            let quoted = text::trimmed(texts.flatten_alt());
            &&& elements_of(input, all) == (if quoted.len() > 0 {
                elements_of(input, before).push(
                    Spanned {
                        node: ElementView::Blockquote { text: quoted },
                        span: Span { start: start.start, end: start.end },
                    },
                )
            } else {
                elements_of(input, before)
            })
            &&& state_after_all(all) is Idle
        }),
{
    let none = Seq::<char>::empty();
    let opened = before.push(start).push(opening);
    lemma_one_more(input, before, start);
    lemma_one_more(input, before.push(start), opening);
    lemma_inline(input, opened, inner, texts);
    lemma_one_more(input, opened + inner, closing);
    lemma_one_more(input, (opened + inner).push(closing), end);
    assert(none + texts.flatten_alt() =~= texts.flatten_alt());
    assert(emitted(input, state_after_all(before), start) =~= seq![]);
    assert(emitted(input, state_after_all(before.push(start)), opening) =~= seq![]);
    assert(emitted(input, state_after_all(opened + inner), closing) =~= seq![]);
    let all = (opened + inner).push(closing).push(end);
    let quoted = text::trimmed(texts.flatten_alt());
    if quoted.len() > 0 {
        let quote = Spanned {
            node: ElementView::Blockquote { text: quoted },
            span: Span { start: start.start, end: start.end },
        };
        assert(emitted(input, state_after_all((opened + inner).push(closing)), end) =~= seq![
            quote,
        ]);
        assert(elements_of(input, all) =~= elements_of(input, before).push(quote));
    } else {
        assert(elements_of(input, all) =~= elements_of(input, before));
    }
}

/// A paragraph of nothing but text is read as its source without the white space around
/// it, so that inline markup is kept; where the source is not there, or is white space,
/// as the text that was read. A paragraph without text is none.
pub proof fn law_paragraph_is_its_source(
    input: Seq<char>,
    before: Seq<EventView>,
    start: EventView,
    inner: Seq<EventView>,
    end: EventView,
    texts: Seq<Seq<char>>,
)
    requires
        !(state_after_all(before) is List),
        !(state_after_all(before) is Blockquote),
        start.token is ParagraphStart,
        write_inline(inner, texts),
        end.token is ParagraphEnd,
    ensures
        ({
            let all = (before.push(start) + inner).push(end);
            let read = text::trimmed(texts.flatten_alt());
            let source = text::byte_slice(input, start.start as int, start.end as int);
            &&& read.len() == 0 ==> elements_of(input, all) == elements_of(input, before)
            &&& read.len() > 0 ==> {
                &&& elements_of(input, all).len() == elements_of(input, before).len() + 1
                &&& elements_of(input, all).drop_last() == elements_of(input, before)
                &&& elements_of(input, all).last().span == (Span {
                    start: start.start,
                    end: start.end,
                })
                &&& elements_of(input, all).last().node == (ElementView::Paragraph {
                    text: if source is Some && text::trimmed(source->0).len() > 0 {
                        text::trimmed(source->0)
                    } else {
                        read
                    },
                })
            }
            &&& state_after_all(all) is Idle
        }),
{
    let none = Seq::<char>::empty();
    lemma_one_more(input, before, start);
    lemma_inline(input, before.push(start), inner, texts);
    lemma_one_more(input, before.push(start) + inner, end);
    assert(none + texts.flatten_alt() =~= texts.flatten_alt());
    assert(emitted(input, state_after_all(before), start) =~= seq![]);
    let all = (before.push(start) + inner).push(end);
    let out = emitted(input, state_after_all(before.push(start) + inner), end);
    if text::trimmed(texts.flatten_alt()).len() > 0 {
        assert(out.len() == 1);
        assert(elements_of(input, all).drop_last() =~= elements_of(input, before));
        assert(elements_of(input, all).last() == out[0]);
    } else {
        assert(out =~= seq![]);
        assert(elements_of(input, all) =~= elements_of(input, before));
    }
}

/// Text behind the start of a link in a paragraph is part of the paragraph where other
/// text comes before it: no link is read.
pub proof fn law_link_behind_text_is_part_of_the_paragraph(
    input: Seq<char>,
    before: Seq<EventView>,
    start: EventView,
    first: Seq<EventView>,
    opening: EventView,
    second: Seq<EventView>,
    closing: EventView,
    end: EventView,
    texts: Seq<Seq<char>>,
    link_texts: Seq<Seq<char>>,
)
    requires
        !(state_after_all(before) is List),
        !(state_after_all(before) is Blockquote),
        start.token is ParagraphStart,
        write_inline(first, texts),
        text::trimmed(texts.flatten_alt()).len() > 0,
        opening.token is LinkStart,
        write_inline(second, link_texts),
        text::trimmed(texts.flatten_alt() + link_texts.flatten_alt()).len() > 0,
        closing.token is LinkEnd,
        end.token is ParagraphEnd,
    ensures
        ({
            let all = ((before.push(start) + first).push(opening) + second).push(closing).push(
                end,
            );
            let source = text::byte_slice(input, start.start as int, start.end as int);
            &&& elements_of(input, all).len() == elements_of(input, before).len() + 1
            &&& elements_of(input, all).drop_last() == elements_of(input, before)
            &&& elements_of(input, all).last().node == (ElementView::Paragraph {
                text: if source is Some && text::trimmed(source->0).len() > 0 {
                    text::trimmed(source->0)
                } else {
                    text::trimmed(texts.flatten_alt() + link_texts.flatten_alt())
                },
            })
        }),
{
    let none = Seq::<char>::empty();
    let a = before.push(start);
    lemma_one_more(input, before, start);
    lemma_inline(input, a, first, texts);
    let b = (a + first).push(opening);
    lemma_one_more(input, a + first, opening);
    assert(none + texts.flatten_alt() =~= texts.flatten_alt());
    lemma_inline(input, b, second, link_texts);
    let c = (b + second).push(closing);
    lemma_one_more(input, b + second, closing);
    lemma_one_more(input, c, end);
    assert(emitted(input, state_after_all(before), start) =~= seq![]);
    assert(emitted(input, state_after_all(a + first), opening) =~= seq![]);
    assert(emitted(input, state_after_all(b + second), closing) =~= seq![]);
    let out = emitted(input, state_after_all(c), end);
    assert(out.len() == 1);
    let all = c.push(end);
    assert(elements_of(input, all).drop_last() =~= elements_of(input, before));
    assert(elements_of(input, all).last() == out[0]);
}

/// A paragraph that is a link is read as the link, with all its text and its
/// destination. A destination that writes an expression makes a link expression: its
/// text is a label where it begins with a bracket, and the name of a binding otherwise.
pub proof fn law_link_keeps_its_text_and_destination(
    input: Seq<char>,
    before: Seq<EventView>,
    start: EventView,
    opening: EventView,
    href: Seq<char>,
    inner: Seq<EventView>,
    closing: EventView,
    end: EventView,
    texts: Seq<Seq<char>>,
)
    requires
        !(state_after_all(before) is List),
        !(state_after_all(before) is Blockquote),
        start.token is ParagraphStart,
        opening.token == TokenView::LinkStart(href),
        write_plain(inner, texts),
        closing.token is LinkEnd,
        end.token is ParagraphEnd,
    ensures
        ({
            let all = (before.push(start).push(opening) + inner).push(closing).push(end);
            let shown = texts.flatten_alt();
            let target = link::link_target_of(href);
            let written = text::begins_with(href, "(->"@) || text::begins_with(href, ":"@);
            &&& elements_of(input, all).len() == elements_of(input, before).len() + 1
            &&& elements_of(input, all).drop_last() == elements_of(input, before)
            &&& elements_of(input, all).last().span == (Span {
                start: opening.start,
                end: opening.end,
            })
            &&& !(written && target is Ok) ==> elements_of(input, all).last().node == (
            ElementView::Link { text: shown, href })
            &&& written && target is Ok ==> elements_of(input, all).last().node == (
            ElementView::LinkExpression {
                text: if shown.len() == 0 {
                    LinkTextView::Empty
                } else if shown[0] == '(' {
                    LinkTextView::Static(shown)
                } else {
                    LinkTextView::Binding(shown)
                },
                target: target->Ok_0,
            })
            &&& state_after_all(all) is Idle
        }),
{
    let none = Seq::<char>::empty();
    let a = before.push(start).push(opening);
    lemma_one_more(input, before, start);
    lemma_one_more(input, before.push(start), opening);
    assert(text::trimmed(none) =~= none);
    lemma_plain(input, a, inner, texts);
    assert(none + texts.flatten_alt() =~= texts.flatten_alt());
    lemma_one_more(input, a + inner, closing);
    lemma_one_more(input, (a + inner).push(closing), end);
    assert(emitted(input, state_after_all(before), start) =~= seq![]);
    assert(emitted(input, state_after_all(before.push(start)), opening) =~= seq![]);
    assert(emitted(input, state_after_all((a + inner).push(closing)), end) =~= seq![]);
    let out = emitted(input, state_after_all(a + inner), closing);
    assert(out.len() == 1);
    let all = (a + inner).push(closing).push(end);
    assert(elements_of(input, all) =~= elements_of(input, before) + out);
    assert(elements_of(input, all).drop_last() =~= elements_of(input, before));
    assert(elements_of(input, all).last() == out[0]);
}

/// The image with the given alternative text, path and place.
spec fn image_at(alt: Seq<char>, path: Seq<char>, event: EventView) -> Spanned<ElementView> {
    Spanned {
        node: ElementView::Image {
            alt: if alt.len() == 0 {
                None
            } else {
                Some(alt)
            },
            path,
        },
        span: Span { start: event.start, end: event.end },
    }
}

/// The events of an image in a paragraph complete nothing: the image waits behind the
/// others of the paragraph.
proof fn lemma_image_waits(
    input: Seq<char>,
    before: Seq<EventView>,
    p: ParagraphView,
    opening: EventView,
    path: Seq<char>,
    inner: Seq<EventView>,
    closing: EventView,
    texts: Seq<Seq<char>>,
)
    requires
        state_after_all(before) == StateView::Paragraph(p),
        opening.token == TokenView::ImageStart(path),
        write_plain(inner, texts),
        closing.token is ImageEnd,
    ensures
        state_after_all((before.push(opening) + inner).push(closing)) == StateView::Paragraph(
            ParagraphView {
                images: p.images.push(image_at(texts.flatten_alt(), path, opening)),
                ..p
            },
        ),
        elements_of(input, (before.push(opening) + inner).push(closing)) == elements_of(
            input,
            before,
        ),
{
    let none = Seq::<char>::empty();
    let b = before.push(opening);
    lemma_one_more(input, before, opening);
    lemma_plain(input, b, inner, texts);
    assert(none + texts.flatten_alt() =~= texts.flatten_alt());
    lemma_one_more(input, b + inner, closing);
    assert(emitted(input, state_after_all(before), opening) =~= seq![]);
    assert(emitted(input, state_after_all(b + inner), closing) =~= seq![]);
    assert(elements_of(input, (b + inner).push(closing)) =~= elements_of(input, before));
}

/// The end of a paragraph with an image completes its text, where it has one, and the
/// image.
proof fn lemma_image_paragraph_ends(
    input: Seq<char>,
    before: Seq<EventView>,
    p: ParagraphView,
    image: Spanned<ElementView>,
    end: EventView,
)
    requires
        state_after_all(before) == StateView::Paragraph(p),
        p.images == seq![image],
        end.token is ParagraphEnd,
    ensures
        state_after_all(before.push(end)) is Idle,
        elements_of(input, before.push(end)) == (if text::trimmed(p.text).len() > 0 {
            elements_of(input, before).push(
                Spanned {
                    node: ElementView::Paragraph { text: text::trimmed(p.text) },
                    span: p.span,
                },
            ).push(image)
        } else {
            elements_of(input, before).push(image)
        }),
{
    lemma_one_more(input, before, end);
    let out = emitted(input, state_after_all(before), end);
    let all = elements_of(input, before.push(end));
    if text::trimmed(p.text).len() > 0 {
        let paragraph = Spanned {
            node: ElementView::Paragraph { text: text::trimmed(p.text) },
            span: p.span,
        };
        assert(out =~= seq![paragraph, image]);
        assert(all =~= elements_of(input, before).push(paragraph).push(image));
    } else {
        assert(out =~= seq![image]);
        assert(all =~= elements_of(input, before).push(image));
    }
}

/// A paragraph with an image is read as its text, where it has one, and behind that the
/// image, with its path and all of its alternative text. An image without such a text
/// has none.
pub proof fn law_image_keeps_its_text_and_path(
    input: Seq<char>,
    before: Seq<EventView>,
    start: EventView,
    first: Seq<EventView>,
    opening: EventView,
    path: Seq<char>,
    inner: Seq<EventView>,
    closing: EventView,
    second: Seq<EventView>,
    end: EventView,
    first_texts: Seq<Seq<char>>,
    texts: Seq<Seq<char>>,
    second_texts: Seq<Seq<char>>,
)
    requires
        !(state_after_all(before) is List),
        !(state_after_all(before) is Blockquote),
        start.token is ParagraphStart,
        write_inline(first, first_texts),
        opening.token == TokenView::ImageStart(path),
        write_plain(inner, texts),
        closing.token is ImageEnd,
        write_inline(second, second_texts),
        end.token is ParagraphEnd,
    ensures
        ({
            let all = (((before.push(start) + first).push(opening) + inner).push(closing)
                + second).push(end);
            let alt = texts.flatten_alt();
            let image = Spanned {
                node: ElementView::Image {
                    alt: if alt.len() == 0 {
                        None
                    } else {
                        Some(alt)
                    },
                    path,
                },
                span: Span { start: opening.start, end: opening.end },
            };
            let read = text::trimmed(first_texts.flatten_alt() + second_texts.flatten_alt());
            &&& elements_of(input, all) == (if read.len() > 0 {
                elements_of(input, before).push(
                    Spanned {
                        node: ElementView::Paragraph { text: read },
                        span: Span { start: start.start, end: start.end },
                    },
                ).push(image)
            } else {
                elements_of(input, before).push(image)
            })
            &&& state_after_all(all) is Idle
        }),
{
    let none = Seq::<char>::empty();
    let a = before.push(start);
    lemma_one_more(input, before, start);
    assert(emitted(input, state_after_all(before), start) =~= seq![]);
    assert(elements_of(input, a) =~= elements_of(input, before));
    lemma_inline(input, a, first, first_texts);
    let one = first_texts.flatten_alt();
    let two = second_texts.flatten_alt();
    assert(none + one =~= one);
    let span = Span { start: start.start, end: start.end };
    let no_images: Seq<Spanned<ElementView>> = seq![];
    let p = ParagraphView { text: one, images: no_images, span };
    lemma_image_waits(input, a + first, p, opening, path, inner, closing, texts);
    let image = image_at(texts.flatten_alt(), path, opening);
    assert(no_images.push(image) =~= seq![image]);
    let c = ((a + first).push(opening) + inner).push(closing);
    lemma_inline(input, c, second, second_texts);
    let q = ParagraphView { text: one + two, images: seq![image], span };
    lemma_image_paragraph_ends(input, c + second, q, image, end);
}

/// A second image of a paragraph comes behind the first: whatever images a paragraph has
/// so far, one more is the last of them when the paragraph ends.
pub proof fn law_images_of_a_paragraph_keep_their_order(
    input: Seq<char>,
    before: Seq<EventView>,
    p: ParagraphView,
    opening: EventView,
    path: Seq<char>,
    closing: EventView,
    end: EventView,
)
    requires
        state_after_all(before) == StateView::Paragraph(p),
        text::trimmed(p.text).len() == 0,
        opening.token == TokenView::ImageStart(path),
        closing.token is ImageEnd,
        end.token is ParagraphEnd,
    ensures
        elements_of(input, before.push(opening).push(closing).push(end)) == elements_of(
            input,
            before.push(end),
        ).push(
            Spanned {
                node: ElementView::Image { alt: None, path },
                span: Span { start: opening.start, end: opening.end },
            },
        ),
{
    lemma_one_more(input, before, opening);
    lemma_one_more(input, before.push(opening), closing);
    lemma_one_more(input, before.push(opening).push(closing), end);
    lemma_one_more(input, before, end);
    let image = Spanned {
        node: ElementView::Image { alt: None, path },
        span: Span { start: opening.start, end: opening.end },
    };
    assert(emitted(input, state_after_all(before), opening) =~= seq![]);
    assert(emitted(input, state_after_all(before.push(opening)), closing) =~= seq![]);
    assert(emitted(input, state_after_all(before), end) =~= p.images);
    let state = state_after_all(before.push(opening).push(closing));
    assert(emitted(input, state, end) =~= p.images.push(image));
    assert(elements_of(input, before.push(opening).push(closing).push(end)) =~= elements_of(
        input,
        before.push(end),
    ).push(image));
}

/// A code block is read with all its code. A fence that names a language gives it to the
/// block; a fence without one, and an indented block, give none.
pub proof fn law_code_block_keeps_its_code(
    input: Seq<char>,
    before: Seq<EventView>,
    start: EventView,
    inner: Seq<EventView>,
    end: EventView,
    texts: Seq<Seq<char>>,
)
    requires
        !(state_after_all(before) is List),
        start.token is FencedStart || start.token is IndentedStart,
        write_plain(inner, texts),
        end.token is CodeBlockEnd,
    ensures
        ({
            let all = (before.push(start) + inner).push(end);
            let language = match start.token {
                TokenView::FencedStart(info) if info.len() > 0 => Some(info),
                _ => None,
            };
            &&& elements_of(input, all) == elements_of(input, before).push(
                Spanned {
                    node: ElementView::CodeBlock { language, code: texts.flatten_alt() },
                    span: Span { start: start.start, end: start.end },
                },
            )
            &&& state_after_all(all) is Idle
        }),
{
    let none = Seq::<char>::empty();
    lemma_one_more(input, before, start);
    lemma_plain(input, before.push(start), inner, texts);
    lemma_one_more(input, before.push(start) + inner, end);
    assert(none + texts.flatten_alt() =~= texts.flatten_alt());
    assert(emitted(input, state_after_all(before), start) =~= seq![]);
    let out = emitted(input, state_after_all(before.push(start) + inner), end);
    assert(out.len() == 1);
    let all = (before.push(start) + inner).push(end);
    assert(elements_of(input, all) =~= elements_of(input, before).push(out[0]));
}

/// A thematic break outside of lists is read as a separator.
pub proof fn law_rule_is_a_separator(input: Seq<char>, before: Seq<EventView>, rule: EventView)
    requires
        !(state_after_all(before) is List),
        rule.token is Rule,
    ensures
        elements_of(input, before.push(rule)) == elements_of(input, before).push(
            Spanned {
                node: ElementView::Separator,
                span: Span { start: rule.start, end: rule.end },
            },
        ),
        state_after_all(before.push(rule)) is Idle,
{
    lemma_one_more(input, before, rule);
    let separator = Spanned {
        node: ElementView::Separator,
        span: Span { start: rule.start, end: rule.end },
    };
    assert(emitted(input, state_after_all(before), rule) =~= seq![separator]);
    assert(elements_of(input, before.push(rule)) =~= elements_of(input, before).push(separator));
}

/// How many more lists events begin than they end.
pub open spec fn list_depth(events: Seq<EventView>) -> int
    decreases events.len(),
{
    if events.len() == 0 {
        0
    } else {
        let rest = list_depth(events.drop_last());
        match events.last().token {
            TokenView::ListStart => rest + 1,
            TokenView::ListEnd => rest - 1,
            _ => rest,
        }
    }
}

/// Inside of a list the parser only counts the lists that begin and end.
proof fn lemma_inside_list(
    input: Seq<char>,
    before: Seq<EventView>,
    events: Seq<EventView>,
    start: usize,
    depth: nat,
)
    requires
        state_after_all(before) == (StateView::List { start, depth }),
        depth >= 1,
        forall|k: int| 0 <= k <= events.len() ==> #[trigger] list_depth(events.take(k)) >= 0,
    ensures
        state_after_all(before + events) == (StateView::List {
            start,
            depth: (depth + list_depth(events)) as nat,
        }),
        list_depth(events) >= 0,
        elements_of(input, before + events) == elements_of(input, before),
    decreases events.len(),
{
    assert(events.take(events.len() as int) =~= events);
    if events.len() == 0 {
        assert(before + events =~= before);
    } else {
        let front = events.drop_last();
        assert forall|k: int| 0 <= k <= front.len() implies #[trigger] list_depth(front.take(k))
            >= 0 by {
            assert(front.take(k) =~= events.take(k));
        }
        lemma_inside_list(input, before, front, start, depth);
        let all = before + events;
        assert(all.drop_last() =~= before + front);
        assert(all.last() == events.last());
        assert(list_depth(events.take(events.len() as int)) >= 0);
        assert(emitted(input, state_after_all(before + front), events.last()) =~= seq![]);
        assert(elements_of(input, all) =~= elements_of(input, before));
    }
}

/// A list is read as its source, whatever stands in it, lists among it: nothing in it
/// becomes an element of its own.
pub proof fn law_list_is_its_source(
    input: Seq<char>,
    before: Seq<EventView>,
    start: EventView,
    inner: Seq<EventView>,
    end: EventView,
    source: Seq<char>,
)
    requires
        !(state_after_all(before) is List),
        start.token is ListStart,
        forall|k: int| 0 <= k <= inner.len() ==> #[trigger] list_depth(inner.take(k)) >= 0,
        list_depth(inner) == 0,
        end.token is ListEnd,
        text::byte_slice(input, start.start as int, end.end as int) == Some(source),
        text::trimmed(source).len() > 0,
    ensures
        ({
            let all = (before.push(start) + inner).push(end);
            &&& elements_of(input, all) == elements_of(input, before).push(
                Spanned {
                    node: ElementView::List { source: text::trimmed(source) },
                    span: Span { start: start.start, end: end.end },
                },
            )
            &&& state_after_all(all) is Idle
        }),
{
    lemma_one_more(input, before, start);
    assert(emitted(input, state_after_all(before), start) =~= seq![]);
    lemma_inside_list(input, before.push(start), inner, start.start, 1);
    lemma_one_more(input, before.push(start) + inner, end);
    let list = Spanned {
        node: ElementView::List { source: text::trimmed(source) },
        span: Span { start: start.start, end: end.end },
    };
    let all = (before.push(start) + inner).push(end);
    assert(emitted(input, state_after_all(before.push(start) + inner), end) =~= seq![list]);
    assert(elements_of(input, all) =~= elements_of(input, before).push(list));
}

/// Whether a token writes a cell of a table: a text without white space around it writes
/// itself, inline code its HTML.
pub open spec fn writes_cell(token: TokenView, cell: Seq<char>) -> bool {
    match token {
        TokenView::Text(t) => t == cell && text::trimmed(t) == t,
        TokenView::Code(t) => cell == "<code>"@ + html_of(t) + "</code>"@,
        _ => false,
    }
}

/// Whether events write a line of a table: for each cell what it holds, and its end.
pub open spec fn write_cells(events: Seq<EventView>, cells: Seq<Seq<char>>) -> bool {
    &&& events.len() == 2 * cells.len()
    &&& forall|i: int|
        0 <= i < cells.len() ==> writes_cell((#[trigger] events[2 * i]).token, cells[i])
    &&& forall|i: int| 0 <= i < cells.len() ==> (#[trigger] events[2 * i + 1]).token is TableCellEnd
}

/// The events of a line of a table put its cells into the row.
proof fn lemma_cells(
    input: Seq<char>,
    before: Seq<EventView>,
    events: Seq<EventView>,
    cells: Seq<Seq<char>>,
    headers: Seq<Seq<char>>,
    rows: Seq<Seq<Seq<char>>>,
    span: Span,
)
    requires
        state_after_all(before) == (StateView::Table {
            headers,
            rows,
            row: seq![],
            cell: seq![],
            span,
        }),
        write_cells(events, cells),
    ensures
        state_after_all(before + events) == (StateView::Table {
            headers,
            rows,
            row: cells,
            cell: seq![],
            span,
        }),
        elements_of(input, before + events) == elements_of(input, before),
    decreases cells.len(),
{
    if cells.len() == 0 {
        assert(before + events =~= before);
        assert(cells =~= seq![]);
    } else {
        let n = cells.len() - 1;
        let fewer = cells.drop_last();
        let front = events.take(2 * n);
        assert forall|i: int| 0 <= i < fewer.len() implies writes_cell(
            (#[trigger] front[2 * i]).token,
            fewer[i],
        ) by {
            assert(front[2 * i] == events[2 * i]);
        }
        assert forall|i: int| 0 <= i < fewer.len() implies (
        #[trigger] front[2 * i + 1]).token is TableCellEnd by {
            assert(front[2 * i + 1] == events[2 * i + 1]);
        }
        lemma_cells(input, before, front, fewer, headers, rows, span);
        let a = before + front;
        let x = events[2 * n];
        let y = events[2 * n + 1];
        assert(writes_cell(x.token, cells[n]));
        assert(y.token is TableCellEnd);
        lemma_one_more(input, a, x);
        lemma_one_more(input, a.push(x), y);
        assert(before + events =~= a.push(x).push(y));
        let none = Seq::<char>::empty();
        let cell = cells[n];
        assert(none + cell =~= cell);
        if let TokenView::Code(t) = x.token {
            reveal_strlit("<code>");
            reveal_strlit("</code>");
            assert(cell[0] == '<');
            assert(cell.last() == '>');
            text::lemma_trimmed_is(cell);
        }
        assert(fewer.push(cell) =~= cells);
        assert(emitted(input, state_after_all(a), x) =~= seq![]);
        assert(emitted(input, state_after_all(a.push(x)), y) =~= seq![]);
        assert(elements_of(input, before + events) =~= elements_of(input, before));
    }
}

/// Whether events write the rows of a table: each its cells, and its end.
pub open spec fn write_rows(events: Seq<EventView>, rows: Seq<Seq<Seq<char>>>) -> bool
    decreases rows.len(),
{
    if rows.len() == 0 {
        events.len() == 0
    } else {
        let n = 2 * rows.last().len() + 1;
        let at = events.len() - n;
        &&& at >= 0
        &&& write_rows(events.take(at), rows.drop_last())
        &&& write_cells(events.subrange(at, events.len() - 1), rows.last())
        &&& events.last().token is TableRowEnd
    }
}

/// The events of the rows of a table put them behind one another.
proof fn lemma_rows(
    input: Seq<char>,
    before: Seq<EventView>,
    events: Seq<EventView>,
    headers: Seq<Seq<char>>,
    rows: Seq<Seq<Seq<char>>>,
    span: Span,
)
    requires
        state_after_all(before) == (StateView::Table {
            headers,
            rows: seq![],
            row: seq![],
            cell: seq![],
            span,
        }),
        write_rows(events, rows),
    ensures
        state_after_all(before + events) == (StateView::Table {
            headers,
            rows,
            row: seq![],
            cell: seq![],
            span,
        }),
        elements_of(input, before + events) == elements_of(input, before),
    decreases rows.len(),
{
    if rows.len() == 0 {
        assert(before + events =~= before);
        assert(rows =~= seq![]);
    } else {
        let at = events.len() - (2 * rows.last().len() + 1);
        let front = events.take(at);
        let line = events.subrange(at, events.len() - 1);
        lemma_rows(input, before, front, headers, rows.drop_last(), span);
        lemma_cells(input, before + front, line, rows.last(), headers, rows.drop_last(), span);
        let a = before + front + line;
        lemma_one_more(input, a, events.last());
        assert(before + events =~= a.push(events.last()));
        assert(rows.drop_last().push(rows.last()) =~= rows);
        assert(emitted(input, state_after_all(a), events.last()) =~= seq![]);
        assert(elements_of(input, before + events) =~= elements_of(input, before));
    }
}

/// A table is read with its headers and all its rows, cell by cell, in order.
pub proof fn law_table_keeps_its_cells(
    input: Seq<char>,
    before: Seq<EventView>,
    start: EventView,
    head: Seq<EventView>,
    head_end: EventView,
    body: Seq<EventView>,
    end: EventView,
    headers: Seq<Seq<char>>,
    rows: Seq<Seq<Seq<char>>>,
)
    requires
        !(state_after_all(before) is List),
        start.token is TableStart,
        write_cells(head, headers),
        head_end.token is TableHeadEnd,
        write_rows(body, rows),
        end.token is TableEnd,
    ensures
        ({
            let all = ((before.push(start) + head).push(head_end) + body).push(end);
            &&& elements_of(input, all) == elements_of(input, before).push(
                Spanned {
                    node: ElementView::Table { headers, rows },
                    span: Span { start: start.start, end: start.end },
                },
            )
            &&& state_after_all(all) is Idle
        }),
{
    let span = Span { start: start.start, end: start.end };
    let a = before.push(start);
    lemma_one_more(input, before, start);
    assert(emitted(input, state_after_all(before), start) =~= seq![]);
    lemma_cells(input, a, head, headers, seq![], seq![], span);
    let b = (a + head).push(head_end);
    lemma_one_more(input, a + head, head_end);
    assert(emitted(input, state_after_all(a + head), head_end) =~= seq![]);
    lemma_rows(input, b, body, headers, rows, span);
    lemma_one_more(input, b + body, end);
    let table = Spanned { node: ElementView::Table { headers, rows }, span };
    let all = (b + body).push(end);
    assert(emitted(input, state_after_all(b + body), end) =~= seq![table]);
    assert(elements_of(input, all) =~= elements_of(input, before).push(table));
}

/// Events that are of no interest can be left out.
pub proof fn law_other_events_do_not_matter(
    input: Seq<char>,
    before: Seq<EventView>,
    other: EventView,
    after: Seq<EventView>,
)
    requires
        other.token is Other,
    ensures
        elements_of(input, before.push(other) + after) == elements_of(input, before + after),
        state_after_all(before.push(other) + after) == state_after_all(before + after),
    decreases after.len(),
{
    if after.len() == 0 {
        lemma_one_more(input, before, other);
        assert(before.push(other) + after =~= before.push(other));
        assert(before + after =~= before);
        assert(emitted(input, state_after_all(before), other) =~= seq![]);
        assert(elements_of(input, before.push(other)) =~= elements_of(input, before));
    } else {
        let front = after.drop_last();
        law_other_events_do_not_matter(input, before, other, front);
        assert((before.push(other) + after).drop_last() =~= before.push(other) + front);
        assert((before + after).drop_last() =~= before + front);
        assert((before.push(other) + after).last() == (before + after).last());
    }
}

/// The HTML of two texts is that of the one and then that of the other.
pub proof fn law_html_of_two_texts(a: Seq<char>, b: Seq<char>)
    ensures
        html_of(a + b) == html_of(a) + html_of(b),
    decreases b.len(),
{
    if b.len() == 0 {
        assert(a + b =~= a);
        assert(html_of(a) + html_of(b) =~= html_of(a));
    } else {
        law_html_of_two_texts(a, b.drop_last());
        assert((a + b).drop_last() =~= a + b.drop_last());
        assert((a + b).last() == b.last());
        assert(html_of(a + b) =~= html_of(a) + html_of(b));
    }
}

/// Only the four characters that HTML gives a meaning are written in another way, each by
/// the entity that stands for it.
pub proof fn law_html_of_a_character(c: char)
    ensures
        html_of(seq!['&']) == seq!['&', 'a', 'm', 'p', ';'],
        html_of(seq!['<']) == seq!['&', 'l', 't', ';'],
        html_of(seq!['>']) == seq!['&', 'g', 't', ';'],
        html_of(seq!['"']) == seq!['&', 'q', 'u', 'o', 't', ';'],
        c != '&' && c != '<' && c != '>' && c != '"' ==> html_of(seq![c]) == seq![c],
        html_of(seq![]) == Seq::<char>::empty(),
{
    reveal_strlit("&amp;");
    reveal_strlit("&lt;");
    reveal_strlit("&gt;");
    reveal_strlit("&quot;");
    lemma_html_of_one('&');
    lemma_html_of_one('<');
    lemma_html_of_one('>');
    lemma_html_of_one('"');
    lemma_html_of_one(c);
    assert("&amp;"@ =~= seq!['&', 'a', 'm', 'p', ';']);
    assert("&lt;"@ =~= seq!['&', 'l', 't', ';']);
    assert("&gt;"@ =~= seq!['&', 'g', 't', ';']);
    assert("&quot;"@ =~= seq!['&', 'q', 'u', 'o', 't', ';']);
}

/// The HTML of a text of one character is that of the character.
proof fn lemma_html_of_one(c: char)
    ensures
        html_of(seq![c]) == html_of_char(c),
{
    let one = seq![c];
    assert(one.drop_last() =~= seq![]);
    assert(html_of(one.drop_last()) =~= seq![]);
    assert(html_of(one) =~= html_of_char(c));
}

/// A text whose headings are of levels that there are is read; the first heading of
/// another level makes it unreadable.
pub proof fn law_only_bad_levels_are_refused(events: Seq<EventView>)
    ensures
        level_error(events) is Some <==> exists|i: int|
            0 <= i < events.len() && ((#[trigger] events[i]).token matches TokenView::HeadingStart(
                level,
            ) && (level < 1 || level > 6)),
    decreases events.len(),
{
    if events.len() > 0 {
        let front = events.drop_last();
        law_only_bad_levels_are_refused(front);
        if level_error(front) is Some {
            let i = choose|i: int|
                0 <= i < front.len() && ((#[trigger] front[i]).token matches TokenView::HeadingStart(
                    level,
                ) && (level < 1 || level > 6));
            assert(events[i] == front[i]);
        } else if has_bad_level(events.last()) {
            assert(events[events.len() - 1] == events.last());
        } else if exists|i: int|
            0 <= i < events.len() && ((#[trigger] events[i]).token matches TokenView::HeadingStart(
                level,
            ) && (level < 1 || level > 6)) {
            let i = choose|i: int|
                0 <= i < events.len() && ((
                #[trigger] events[i]).token matches TokenView::HeadingStart(level) && (level < 1
                    || level > 6));
            if i < front.len() {
                assert(front[i] == events[i]);
            }
        }
    }
}

/// Line feeds and units are counted piece by piece: a line feed is one line, a character
/// beyond the basic plane two units and any other one.
pub proof fn law_lines_and_units_add_up(a: Seq<char>, b: Seq<char>, c: char)
    ensures
        newline_count(a + b) == newline_count(a) + newline_count(b),
        utf16_len(a + b) == utf16_len(a) + utf16_len(b),
        newline_count(seq![c]) == (if c == '\n' {
            1nat
        } else {
            0nat
        }),
        utf16_len(seq![c]) == (if c as u32 >= 0x10000 {
            2nat
        } else {
            1nat
        }),
    decreases b.len(),
{
    assert(seq![c].drop_last() =~= seq![]);
    assert(newline_count(seq![c].drop_last()) == 0);
    assert(utf16_len(seq![c].drop_last()) == 0);
    if b.len() == 0 {
        assert(a + b =~= a);
    } else {
        law_lines_and_units_add_up(a, b.drop_last(), c);
        assert((a + b).drop_last() =~= a + b.drop_last());
        assert((a + b).last() == b.last());
    }
}

/// The last line is what stands behind the last line feed.
proof fn lemma_last_line(a: Seq<char>, b: Seq<char>)
    requires
        !b.contains('\n'),
    ensures
        last_line(b) == b,
        last_line(a + seq!['\n'] + b) == b,
    decreases b.len(),
{
    let all = a + seq!['\n'] + b;
    if b.len() == 0 {
        assert(all.last() == '\n');
        assert(last_line(b) =~= b);
    } else {
        let t = b.drop_last();
        assert(b.contains(b.last()));
        assert(!t.contains('\n')) by {
            if t.contains('\n') {
                let k = choose|k: int| 0 <= k < t.len() && t[k] == '\n';
                assert(b[k] == '\n');
            }
        }
        lemma_last_line(a, t);
        assert(all.drop_last() =~= a + seq!['\n'] + t);
        assert(all.last() == b.last());
        assert(t.push(b.last()) =~= b);
    }
}

/// A place behind the start of a line is as many lines down as there are line feeds before
/// it, and as many units in as the line has before it.
pub proof fn law_position_of_a_place(
    src: Seq<char>,
    byte_offset: usize,
    a: Seq<char>,
    b: Seq<char>,
)
    requires
        !b.contains('\n'),
    ensures
        prefix_before(src, byte_offset) == a + seq!['\n'] + b ==> position_of(src, byte_offset)
            == (newline_count(a) + 1, utf16_len(b)),
        prefix_before(src, byte_offset) == b ==> position_of(src, byte_offset) == (
            0nat,
            utf16_len(b),
        ),
{
    lemma_last_line(a, b);
    law_lines_and_units_add_up(a, seq!['\n'], '\n');
    law_lines_and_units_add_up(a + seq!['\n'], b, '\n');
    lemma_no_line_feeds(b);
}

/// A text without line feeds has none.
proof fn lemma_no_line_feeds(b: Seq<char>)
    requires
        !b.contains('\n'),
    ensures
        newline_count(b) == 0,
    decreases b.len(),
{
    if b.len() > 0 {
        let t = b.drop_last();
        assert(b.contains(b.last()));
        assert(!t.contains('\n')) by {
            if t.contains('\n') {
                let k = choose|k: int| 0 <= k < t.len() && t[k] == '\n';
                assert(b[k] == '\n');
            }
        }
        lemma_no_line_feeds(t);
    }
}

/// What stands before a place is read from the bytes before it, and all of the text where
/// it has no such place.
pub proof fn law_bytes_before_a_place(a: Seq<char>, b: Seq<char>, byte_offset: usize)
    ensures
        byte_offset == encode_utf8(a).len() ==> prefix_before(a + b, byte_offset) == a,
        byte_offset > encode_utf8(a).len() ==> prefix_before(a, byte_offset) == a,
{
    applying::lemma_encode_concat(a, b);
    let all = encode_utf8(a + b);
    if byte_offset == encode_utf8(a).len() {
        assert(all.subrange(0, byte_offset as int) =~= encode_utf8(a));
        vstd::utf8::encode_utf8_decode_utf8(a);
    }
}

} // verus!
