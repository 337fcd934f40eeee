//! Content documents: flat and slotted.

use vstd::prelude::*;

use crate::schema::HeadingLevel;
use crate::schema::SlotName;
use crate::schema::Span;
use crate::schema::Spanned;
use crate::text;
use crate::text::same;
use crate::vector;
use crate::vector::{
    append_elements, clone_elements, clone_slots, no_elements, push_element, slot_at, slot_count,
};

verus! {

/// Target of a link expression in content.
#[derive(Debug, PartialEq)]
pub enum LinkTarget {
    /// A path reference: `/fragments/header`.
    PathRef(String),
    /// A threaded expression: `(->> :post (sort-by :published :desc) (take 4))`.
    ThreadExpr { source: String, operations: Vec<LinkOp> },
}

/// An operation in a threaded link expression.
#[derive(Debug, PartialEq)]
pub enum LinkOp {
    /// `(sort-by :field :asc)` or `(sort-by :field :desc)`.
    SortBy { field: String, descending: bool },
    /// `(take n)`.
    Take(usize),
    /// `(filter :field "value")`.
    Filter { field: String, value: String },
    /// `(refs-to self)` or `(refs-to "/url")`.
    RefsTo(RefsToTarget),
}

/// What a `refs-to` operation asks the references of.
#[derive(Debug, PartialEq)]
pub enum RefsToTarget {
    /// The page that holds the expression.
    SelfRef,
    /// The page with the given URL.
    Url(String),
}

/// The text part of a link expression `[text](target)`.
#[derive(Debug, PartialEq)]
pub enum LinkText {
    /// `[]`: no display text.
    Empty,
    /// A static label.
    Static(String),
    /// A binding name, under which the result is stored.
    Binding(String),
}

/// A structural element within a content document.
#[derive(Debug, PartialEq)]
pub enum ContentElement {
    Heading { level: HeadingLevel, text: String },
    Paragraph { text: String },
    Image { alt: Option<String>, path: String },
    Link { text: String, href: String },
    Separator,
    CodeBlock { language: Option<String>, code: String },
    Table { headers: Vec<String>, rows: Vec<Vec<String>> },
    /// A block of HTML that is already rendered.
    RawHtml { html: String },
    /// A block quote with the quoted text.
    Blockquote { text: String },
    /// A list, ordered or not, as its markdown source.
    List { source: String },
    /// A link whose target is an expression.
    LinkExpression { text: LinkText, target: LinkTarget },
}

/// The mathematical counterpart of [`RefsToTarget`].
pub enum RefsToView {
    SelfRef,
    Url(Seq<char>),
}

/// The mathematical counterpart of [`LinkOp`].
pub enum LinkOpView {
    SortBy { field: Seq<char>, descending: bool },
    Take(usize),
    Filter { field: Seq<char>, value: Seq<char> },
    RefsTo(RefsToView),
}

/// The mathematical counterpart of [`LinkTarget`].
pub enum LinkTargetView {
    PathRef(Seq<char>),
    ThreadExpr { source: Seq<char>, operations: Seq<LinkOpView> },
}

/// The mathematical counterpart of [`LinkText`].
pub enum LinkTextView {
    Empty,
    Static(Seq<char>),
    Binding(Seq<char>),
}

/// The mathematical counterpart of [`ContentElement`].
pub enum ElementView {
    Heading { level: u8, text: Seq<char> },
    Paragraph { text: Seq<char> },
    Image { alt: Option<Seq<char>>, path: Seq<char> },
    Link { text: Seq<char>, href: Seq<char> },
    Separator,
    CodeBlock { language: Option<Seq<char>>, code: Seq<char> },
    Table { headers: Seq<Seq<char>>, rows: Seq<Seq<Seq<char>>> },
    RawHtml { html: Seq<char> },
    Blockquote { text: Seq<char> },
    List { source: Seq<char> },
    LinkExpression { text: LinkTextView, target: LinkTargetView },
}

impl View for RefsToTarget {
    type V = RefsToView;

    open spec fn view(&self) -> RefsToView {
        match self {
            RefsToTarget::SelfRef => RefsToView::SelfRef,
            RefsToTarget::Url(url) => RefsToView::Url(url@),
        }
    }
}

impl View for LinkOp {
    type V = LinkOpView;

    open spec fn view(&self) -> LinkOpView {
        match self {
            LinkOp::SortBy { field, descending } => LinkOpView::SortBy {
                field: field@,
                descending: *descending,
            },
            LinkOp::Take(n) => LinkOpView::Take(*n),
            LinkOp::Filter { field, value } => LinkOpView::Filter { field: field@, value: value@ },
            LinkOp::RefsTo(target) => LinkOpView::RefsTo(target@),
        }
    }
}

/// The views of a sequence of operations.
pub open spec fn op_views(ops: Seq<LinkOp>) -> Seq<LinkOpView> {
    ops.map_values(|op: LinkOp| op@)
}

impl View for LinkTarget {
    type V = LinkTargetView;

    open spec fn view(&self) -> LinkTargetView {
        match self {
            LinkTarget::PathRef(path) => LinkTargetView::PathRef(path@),
            LinkTarget::ThreadExpr { source, operations } => LinkTargetView::ThreadExpr {
                source: source@,
                operations: op_views(operations@),
            },
        }
    }
}

impl View for LinkText {
    type V = LinkTextView;

    open spec fn view(&self) -> LinkTextView {
        match self {
            LinkText::Empty => LinkTextView::Empty,
            LinkText::Static(text) => LinkTextView::Static(text@),
            LinkText::Binding(name) => LinkTextView::Binding(name@),
        }
    }
}

/// The views of the rows of a table.
pub open spec fn row_views(rows: Seq<Vec<String>>) -> Seq<Seq<Seq<char>>> {
    rows.map_values(|row: Vec<String>| text::texts(row@))
}

impl View for ContentElement {
    type V = ElementView;

    open spec fn view(&self) -> ElementView {
        match self {
            ContentElement::Heading { level, text } => ElementView::Heading {
                level: level@,
                text: text@,
            },
            ContentElement::Paragraph { text } => ElementView::Paragraph { text: text@ },
            ContentElement::Image { alt, path } => ElementView::Image {
                alt: text::opt_text(*alt),
                path: path@,
            },
            ContentElement::Link { text, href } => ElementView::Link { text: text@, href: href@ },
            ContentElement::Separator => ElementView::Separator,
            ContentElement::CodeBlock { language, code } => ElementView::CodeBlock {
                language: text::opt_text(*language),
                code: code@,
            },
            ContentElement::Table { headers, rows } => ElementView::Table {
                headers: text::texts(headers@),
                rows: row_views(rows@),
            },
            ContentElement::RawHtml { html } => ElementView::RawHtml { html: html@ },
            ContentElement::Blockquote { text } => ElementView::Blockquote { text: text@ },
            ContentElement::List { source } => ElementView::List { source: source@ },
            ContentElement::LinkExpression { text, target } => ElementView::LinkExpression {
                text: text@,
                target: target@,
            },
        }
    }
}

/// A copy of an optional string.
pub fn clone_opt(o: &Option<String>) -> (r: Option<String>)
    ensures
        text::opt_text(r) == text::opt_text(*o),
{
    match o {
        Some(s) => Some(s.clone()),
        None => None,
    }
}

/// A copy of a list of strings.
pub fn clone_texts(v: &Vec<String>) -> (r: Vec<String>)
    ensures
        text::texts(r@) == text::texts(v@),
{
    let mut out: Vec<String> = Vec::new();
    let mut i: usize = 0;
    while i < v.len()
        invariant
            i <= v.len(),
            out.len() == i,
            forall|k: int| 0 <= k < i ==> out@[k]@ == v@[k]@,
        decreases v.len() - i,
    {
        out.push(v[i].clone());
        i += 1;
    }
    proof {
        assert(text::texts(out@) =~= text::texts(v@));
    }
    out
}

/// A copy of the rows of a table.
pub fn clone_rows(v: &Vec<Vec<String>>) -> (r: Vec<Vec<String>>)
    ensures
        row_views(r@) == row_views(v@),
{
    let mut out: Vec<Vec<String>> = Vec::new();
    let mut i: usize = 0;
    while i < v.len()
        invariant
            i <= v.len(),
            out.len() == i,
            forall|k: int| 0 <= k < i ==> text::texts(out@[k]@) == text::texts(v@[k]@),
        decreases v.len() - i,
    {
        out.push(clone_texts(&v[i]));
        i += 1;
    }
    proof {
        assert(row_views(out@) =~= row_views(v@));
    }
    out
}

impl Clone for RefsToTarget {
    fn clone(&self) -> (r: Self)
        ensures
            r@ == self@,
    {
        match self {
            RefsToTarget::SelfRef => RefsToTarget::SelfRef,
            RefsToTarget::Url(url) => RefsToTarget::Url(url.clone()),
        }
    }
}

impl Clone for LinkOp {
    fn clone(&self) -> (r: Self)
        ensures
            r@ == self@,
    {
        match self {
            LinkOp::SortBy { field, descending } => LinkOp::SortBy {
                field: field.clone(),
                descending: *descending,
            },
            LinkOp::Take(n) => LinkOp::Take(*n),
            LinkOp::Filter { field, value } => LinkOp::Filter {
                field: field.clone(),
                value: value.clone(),
            },
            LinkOp::RefsTo(target) => LinkOp::RefsTo(target.clone()),
        }
    }
}

impl Clone for LinkTarget {
    fn clone(&self) -> (r: Self)
        ensures
            r@ == self@,
    {
        match self {
            LinkTarget::PathRef(path) => LinkTarget::PathRef(path.clone()),
            LinkTarget::ThreadExpr { source, operations } => {
                let mut out: Vec<LinkOp> = Vec::new();
                let mut i: usize = 0;
                while i < operations.len()
                    invariant
                        i <= operations.len(),
                        out.len() == i,
                        forall|k: int| 0 <= k < i ==> out@[k]@ == operations@[k]@,
                    decreases operations.len() - i,
                {
                    out.push(operations[i].clone());
                    i += 1;
                }
                proof {
                    assert(op_views(out@) =~= op_views(operations@));
                }
                LinkTarget::ThreadExpr { source: source.clone(), operations: out }
            },
        }
    }
}

impl Clone for LinkText {
    fn clone(&self) -> (r: Self)
        ensures
            r@ == self@,
    {
        match self {
            LinkText::Empty => LinkText::Empty,
            LinkText::Static(text) => LinkText::Static(text.clone()),
            LinkText::Binding(name) => LinkText::Binding(name.clone()),
        }
    }
}

impl Clone for ContentElement {
    fn clone(&self) -> (r: Self)
        ensures
            r@ == self@,
    {
        match self {
            ContentElement::Heading { level, text } => ContentElement::Heading {
                level: *level,
                text: text.clone(),
            },
            ContentElement::Paragraph { text } => ContentElement::Paragraph { text: text.clone() },
            ContentElement::Image { alt, path } => ContentElement::Image {
                alt: clone_opt(alt),
                path: path.clone(),
            },
            ContentElement::Link { text, href } => ContentElement::Link {
                text: text.clone(),
                href: href.clone(),
            },
            ContentElement::Separator => ContentElement::Separator,
            ContentElement::CodeBlock { language, code } => ContentElement::CodeBlock {
                language: clone_opt(language),
                code: code.clone(),
            },
            ContentElement::Table { headers, rows } => ContentElement::Table {
                headers: clone_texts(headers),
                rows: clone_rows(rows),
            },
            ContentElement::RawHtml { html } => ContentElement::RawHtml { html: html.clone() },
            ContentElement::Blockquote { text } => ContentElement::Blockquote {
                text: text.clone(),
            },
            ContentElement::List { source } => ContentElement::List { source: source.clone() },
            ContentElement::LinkExpression { text, target } => ContentElement::LinkExpression {
                text: text.clone(),
                target: target.clone(),
            },
        }
    }
}

impl Clone for Spanned<ContentElement> {
    fn clone(&self) -> (r: Self)
        ensures
            r@ == self@,
    {
        Spanned { node: self.node.clone(), span: self.span }
    }
}

/// Whether two optional strings are the same.
fn same_opt(a: &Option<String>, b: &Option<String>) -> (r: bool)
    ensures
        r == (text::opt_text(*a) == text::opt_text(*b)),
{
    match (a, b) {
        (Some(x), Some(y)) => same(x.as_str(), y.as_str()),
        (None, None) => true,
        _ => false,
    }
}

/// Whether two lists of strings are the same.
pub fn same_texts(a: &Vec<String>, b: &Vec<String>) -> (r: bool)
    ensures
        r == (text::texts(a@) == text::texts(b@)),
{
    if a.len() != b.len() {
        proof {
            assert(text::texts(a@).len() != text::texts(b@).len());
        }
        return false;
    }
    let mut i: usize = 0;
    while i < a.len()
        invariant
            i <= a.len(),
            a.len() == b.len(),
            forall|k: int| 0 <= k < i ==> (#[trigger] a@[k])@ == b@[k]@,
        decreases a.len() - i,
    {
        if !same(a[i].as_str(), b[i].as_str()) {
            proof {
                assert(text::texts(a@)[i as int] != text::texts(b@)[i as int]);
            }
            return false;
        }
        i += 1;
    }
    proof {
        assert(text::texts(a@) =~= text::texts(b@));
    }
    true
}

/// Whether the rows of two tables are the same.
fn same_rows(a: &Vec<Vec<String>>, b: &Vec<Vec<String>>) -> (r: bool)
    ensures
        r == (row_views(a@) == row_views(b@)),
{
    if a.len() != b.len() {
        proof {
            assert(row_views(a@).len() != row_views(b@).len());
        }
        return false;
    }
    let mut i: usize = 0;
    while i < a.len()
        invariant
            i <= a.len(),
            a.len() == b.len(),
            forall|k: int| 0 <= k < i ==> text::texts((#[trigger] a@[k])@) == text::texts(b@[k]@),
        decreases a.len() - i,
    {
        if !same_texts(&a[i], &b[i]) {
            proof {
                assert(row_views(a@)[i as int] != row_views(b@)[i as int]);
            }
            return false;
        }
        i += 1;
    }
    proof {
        assert(row_views(a@) =~= row_views(b@));
    }
    true
}

/// Whether two operations are the same.
fn same_op(a: &LinkOp, b: &LinkOp) -> (r: bool)
    ensures
        r == (a@ == b@),
{
    match (a, b) {
        (
            LinkOp::SortBy { field: f, descending: d },
            LinkOp::SortBy { field: g, descending: e },
        ) => *d == *e && same(f.as_str(), g.as_str()),
        (LinkOp::Take(n), LinkOp::Take(m)) => *n == *m,
        (LinkOp::Filter { field: f, value: v }, LinkOp::Filter { field: g, value: w }) => same(
            f.as_str(),
            g.as_str(),
        ) && same(v.as_str(), w.as_str()),
        (LinkOp::RefsTo(RefsToTarget::SelfRef), LinkOp::RefsTo(RefsToTarget::SelfRef)) => true,
        (LinkOp::RefsTo(RefsToTarget::Url(u)), LinkOp::RefsTo(RefsToTarget::Url(v))) => same(
            u.as_str(),
            v.as_str(),
        ),
        _ => false,
    }
}

/// Whether two link targets are the same.
fn same_target(a: &LinkTarget, b: &LinkTarget) -> (r: bool)
    ensures
        r == (a@ == b@),
{
    match (a, b) {
        (LinkTarget::PathRef(p), LinkTarget::PathRef(q)) => same(p.as_str(), q.as_str()),
        (
            LinkTarget::ThreadExpr { source: s, operations: x },
            LinkTarget::ThreadExpr { source: t, operations: y },
        ) => {
            if x.len() != y.len() || !same(s.as_str(), t.as_str()) {
                proof {
                    assert(op_views(x@).len() == x.len() && op_views(y@).len() == y.len());
                }
                return false;
            }
            let mut i: usize = 0;
            while i < x.len()
                invariant
                    i <= x.len(),
                    x.len() == y.len(),
                    a@ == (LinkTargetView::ThreadExpr { source: s@, operations: op_views(x@) }),
                    b@ == (LinkTargetView::ThreadExpr { source: t@, operations: op_views(y@) }),
                    forall|k: int| 0 <= k < i ==> (#[trigger] x@[k])@ == y@[k]@,
                decreases x.len() - i,
            {
                if !same_op(&x[i], &y[i]) {
                    proof {
                        assert(op_views(x@)[i as int] != op_views(y@)[i as int]);
                    }
                    return false;
                }
                i += 1;
            }
            proof {
                assert(op_views(x@) =~= op_views(y@));
            }
            true
        },
        _ => false,
    }
}

/// Whether two link texts are the same.
fn same_link_text(a: &LinkText, b: &LinkText) -> (r: bool)
    ensures
        r == (a@ == b@),
{
    match (a, b) {
        (LinkText::Empty, LinkText::Empty) => true,
        (LinkText::Static(s), LinkText::Static(t)) => same(s.as_str(), t.as_str()),
        (LinkText::Binding(s), LinkText::Binding(t)) => same(s.as_str(), t.as_str()),
        _ => false,
    }
}

/// Whether two elements are the same.
pub fn same_element(a: &ContentElement, b: &ContentElement) -> (r: bool)
    ensures
        r == (a@ == b@),
{
    match (a, b) {
        (
            ContentElement::Heading { level: l, text: s },
            ContentElement::Heading { level: m, text: t },
        ) => l.value() == m.value() && same(s.as_str(), t.as_str()),
        (ContentElement::Paragraph { text: s }, ContentElement::Paragraph { text: t }) => same(
            s.as_str(),
            t.as_str(),
        ),
        (
            ContentElement::Image { alt: x, path: p },
            ContentElement::Image { alt: y, path: q },
        ) => same_opt(x, y) && same(p.as_str(), q.as_str()),
        (
            ContentElement::Link { text: s, href: p },
            ContentElement::Link { text: t, href: q },
        ) => same(s.as_str(), t.as_str()) && same(p.as_str(), q.as_str()),
        (ContentElement::Separator, ContentElement::Separator) => true,
        (
            ContentElement::CodeBlock { language: x, code: c },
            ContentElement::CodeBlock { language: y, code: d },
        ) => same_opt(x, y) && same(c.as_str(), d.as_str()),
        (
            ContentElement::Table { headers: h, rows: x },
            ContentElement::Table { headers: k, rows: y },
        ) => same_texts(h, k) && same_rows(x, y),
        (ContentElement::RawHtml { html: s }, ContentElement::RawHtml { html: t }) => same(
            s.as_str(),
            t.as_str(),
        ),
        (ContentElement::Blockquote { text: s }, ContentElement::Blockquote { text: t }) => same(
            s.as_str(),
            t.as_str(),
        ),
        (ContentElement::List { source: s }, ContentElement::List { source: t }) => same(
            s.as_str(),
            t.as_str(),
        ),
        (
            ContentElement::LinkExpression { text: s, target: x },
            ContentElement::LinkExpression { text: t, target: y },
        ) => same_link_text(s, t) && same_target(x, y),
        _ => false,
    }
}

/// A parsed content document: an ordered sequence of spanned content elements.
///
/// This is the flat form that the parser returns; [`Document`] is the slotted
/// form.
#[derive(Debug)]
pub struct FlatDocument {
    pub elements: im::Vector<Spanned<ContentElement>>,
}

impl Clone for FlatDocument {
    fn clone(&self) -> (r: Self)
        ensures
            r@ == self@,
    {
        FlatDocument { elements: clone_elements(&self.elements) }
    }
}

impl View for FlatDocument {
    type V = Seq<Spanned<ElementView>>;

    open spec fn view(&self) -> Seq<Spanned<ElementView>> {
        vector::element_items(self.elements)
    }
}

/// A named slot in a parsed document, with the elements that belong to it.
#[derive(Debug)]
pub struct DocumentSlot {
    pub name: SlotName,
    pub elements: im::Vector<Spanned<ContentElement>>,
}

/// The mathematical counterpart of [`DocumentSlot`].
#[verifier::ext_equal]
pub struct SlotView {
    pub name: Seq<char>,
    pub elements: Seq<Spanned<ElementView>>,
}

impl View for DocumentSlot {
    type V = SlotView;

    open spec fn view(&self) -> SlotView {
        SlotView { name: self.name@, elements: vector::element_items(self.elements) }
    }
}

impl Clone for DocumentSlot {
    fn clone(&self) -> (r: Self)
        ensures
            r@ == self@,
    {
        DocumentSlot { name: self.name.clone(), elements: clone_elements(&self.elements) }
    }
}

/// A parsed content document with named slots.
///
/// The preamble slots stand in the order in which the grammar declares them;
/// `body` holds the elements behind the separator, if there is one.
#[derive(Debug)]
pub struct Document {
    pub preamble: im::Vector<DocumentSlot>,
    pub body: im::Vector<Spanned<ContentElement>>,
    pub has_separator: bool,
    pub separator_span: Option<Span>,
}

/// The mathematical counterpart of [`Document`].
#[verifier::ext_equal]
pub struct DocumentView {
    pub preamble: Seq<SlotView>,
    pub body: Seq<Spanned<ElementView>>,
    pub has_separator: bool,
    pub separator_span: Option<Span>,
}

impl View for Document {
    type V = DocumentView;

    open spec fn view(&self) -> DocumentView {
        DocumentView {
            preamble: vector::slot_items(self.preamble),
            body: vector::element_items(self.body),
            has_separator: self.has_separator,
            separator_span: self.separator_span,
        }
    }
}

impl Clone for Document {
    fn clone(&self) -> (r: Self)
        ensures
            r@ == self@,
    {
        Document {
            preamble: clone_slots(&self.preamble),
            body: clone_elements(&self.body),
            has_separator: self.has_separator,
            separator_span: self.separator_span,
        }
    }
}

/// The elements of the slots, one slot behind the other.
pub open spec fn slots_flat(slots: Seq<SlotView>) -> Seq<Spanned<ElementView>>
    decreases slots.len(),
{
    if slots.len() == 0 {
        seq![]
    } else {
        slots_flat(slots.drop_last()) + slots.last().elements
    }
}

/// The separator of a document as an element.
pub open spec fn separator_part(doc: DocumentView) -> Seq<Spanned<ElementView>> {
    if doc.has_separator {
        let span = match doc.separator_span {
            Some(span) => span,
            None => Span { start: 0, end: 0 },
        };
        seq![Spanned { node: ElementView::Separator, span }]
    } else {
        seq![]
    }
}

/// The elements of a document in order: those of the slots, the separator if
/// there is one, those of the body.
pub open spec fn document_flat(doc: DocumentView) -> Seq<Spanned<ElementView>> {
    slots_flat(doc.preamble) + separator_part(doc) + doc.body
}

/// The elements of the first slots are no more than those of all of them.
pub proof fn lemma_slots_flat_grows(slots: Seq<SlotView>, k: int)
    requires
        0 <= k <= slots.len(),
    ensures
        slots_flat(slots.take(k)).len() <= slots_flat(slots).len(),
    decreases slots.len(),
{
    if k == slots.len() {
        assert(slots.take(k) == slots);
    } else {
        lemma_slots_flat_grows(slots.drop_last(), k);
        assert(slots.drop_last().take(k) == slots.take(k));
    }
}

impl Document {
    /// The flat sequence of the document's elements, in declaration order: the
    /// elements of the preamble slots, the separator if there is one, and the
    /// elements of the body.
    ///
    /// The separator carries `separator_span` where that is known, and a zero
    /// span otherwise.
    pub fn flat_elements(&self) -> (r: im::Vector<Spanned<ContentElement>>)
        requires
            document_flat(self@).len() <= usize::MAX,
        ensures
            vector::element_items(r) == document_flat(self@),
    {
        let mut result = no_elements();
        let n: usize = slot_count(&self.preamble);
        let mut i: usize = 0;
        let ghost slots = vector::slot_items(self.preamble);
        while i < n
            invariant
                i <= n,
                n == slots.len(),
                slots == vector::slot_items(self.preamble),
                slots_flat(slots).len() <= usize::MAX,
                vector::element_items(result) == slots_flat(slots.take(i as int)),
            decreases n - i,
        {
            proof {
                lemma_slots_flat_grows(slots, i + 1);
                assert(slots.take(i + 1).drop_last() == slots.take(i as int));
            }
            let slot = slot_at(&self.preamble, i);
            append_elements(&mut result, clone_elements(&slot.elements));
            i += 1;
        }
        proof {
            assert(slots.take(n as int) == slots);
        }
        if self.has_separator {
            let span: Span = match self.separator_span {
                Some(span) => span,
                None => Span { start: 0, end: 0 },
            };
            push_element(&mut result, Spanned { node: ContentElement::Separator, span });
        }
        proof {
            assert(vector::element_items(result) =~= slots_flat(slots) + separator_part(self@));
        }
        append_elements(&mut result, clone_elements(&self.body));
        result
    }
}

/// The flat elements of a document are those of its slots, slot by slot, then the
/// separator where there is one, then those of the body.
pub proof fn law_flat_document_has_all_elements(doc: DocumentView)
    ensures
        ({
            let slots = doc.preamble.map_values(|s: SlotView| s.elements).flatten_alt();
            let flat = document_flat(doc);
            &&& flat.take(slots.len() as int) == slots
            &&& !doc.has_separator ==> flat.skip(slots.len() as int) == doc.body
            &&& doc.has_separator ==> {
                &&& flat[slots.len() as int].node is Separator
                &&& doc.separator_span is Some ==> flat[slots.len() as int].span
                    == doc.separator_span->0
                &&& flat.skip(slots.len() as int + 1) == doc.body
            }
        }),
{
    lemma_slots_flat(doc.preamble);
    let slots = slots_flat(doc.preamble);
    let flat = document_flat(doc);
    assert(flat.take(slots.len() as int) =~= slots);
    if doc.has_separator {
        assert(flat.skip(slots.len() as int + 1) =~= doc.body);
    } else {
        assert(flat.skip(slots.len() as int) =~= doc.body);
    }
}

/// The elements of slots, slot by slot.
proof fn lemma_slots_flat(slots: Seq<SlotView>)
    ensures
        slots_flat(slots) == slots.map_values(|s: SlotView| s.elements).flatten_alt(),
    decreases slots.len(),
{
    let parts = slots.map_values(|s: SlotView| s.elements);
    if slots.len() > 0 {
        lemma_slots_flat(slots.drop_last());
        assert(parts.drop_last() =~= slots.drop_last().map_values(|s: SlotView| s.elements));
    }
}

} // verus!
