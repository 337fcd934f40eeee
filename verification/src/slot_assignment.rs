//! Slot assignment: from the flat elements of a document to the named slots of
//! its grammar.

use vstd::prelude::*;

use crate::document;
use crate::document::{ContentElement, Document, DocumentSlot, DocumentView, ElementView, SlotView};
use crate::error::ContentError;
use crate::markdown;
use crate::parser;
use crate::parser::parse_document;
use crate::schema::{Element, Grammar, Slot, Span, Spanned};
use crate::text;
use crate::text::{chars_of, trim};
use crate::vector;
use crate::vector::{
    element_at, element_count, elements_from, no_elements, no_slots, push_element, push_slot,
};

verus! {

/// Whether an element is a separator.
pub open spec fn is_separator(e: ElementView) -> bool {
    e is Separator
}

/// Whether an element is a separator.
pub fn is_separator_element(element: &ContentElement) -> (r: bool)
    ensures
        r == is_separator(element@),
{
    match element {
        ContentElement::Separator => true,
        _ => false,
    }
}

/// Whether a text is a bare slot annotation such as `{#cover}`.
pub open spec fn is_annotation(s: Seq<char>) -> bool {
    let t = text::trimmed(s);
    &&& t.len() >= 3
    &&& t[0] == '{'
    &&& t[1] == '#'
    &&& t.last() == '}'
    &&& forall|k: int| 2 <= k < t.len() - 1 ==> t[k] != '}'
}

/// Whether a text is a bare slot annotation such as `{#cover}`.
///
/// The parser leaves such paragraphs where an image or a link stands beside an
/// inline annotation.
pub fn is_annotation_paragraph(text: &str) -> (r: bool)
    ensures
        r == is_annotation(text@),
{
    let t = trim(text);
    let v = chars_of(t.as_str());
    if v.len() < 3 || v[0] != '{' || v[1] != '#' || v[v.len() - 1] != '}' {
        return false;
    }
    let mut i: usize = 2;
    while i < v.len() - 1
        invariant
            2 <= i <= v.len() - 1,
            v@ == text::trimmed(text@),
            forall|k: int| 2 <= k < i ==> v@[k] != '}',
        decreases v.len() - i,
    {
        if v[i] == '}' {
            return false;
        }
        i += 1;
    }
    true
}

/// Whether an element is of the kind that a slot holds.
pub open spec fn fits_slot(e: ElementView, kind: Element) -> bool {
    match kind {
        Element::Heading { .. } => e is Heading,
        Element::Paragraph => e is Paragraph,
        Element::Link { .. } => e is Link || e is LinkExpression,
        Element::Image { .. } => e is Image,
        Element::List => e is List,
    }
}

/// Whether an element is of the kind that a slot holds.
pub fn element_matches_slot(element: &ContentElement, kind: &Element) -> (r: bool)
    ensures
        r == fits_slot(element@, *kind),
{
    match (element, kind) {
        (ContentElement::Heading { .. }, Element::Heading { .. }) => true,
        (ContentElement::Paragraph { .. }, Element::Paragraph) => true,
        (ContentElement::Link { .. }, Element::Link { .. }) => true,
        (ContentElement::LinkExpression { .. }, Element::Link { .. }) => true,
        (ContentElement::Image { .. }, Element::Image { .. }) => true,
        (ContentElement::List { .. }, Element::List) => true,
        _ => false,
    }
}

/// Whether an element is a paragraph that holds nothing but an annotation.
pub open spec fn is_annotation_element(e: ElementView) -> bool {
    e matches ElementView::Paragraph { text } && is_annotation(text)
}

/// Whether an element is a paragraph that holds nothing but an annotation.
pub fn is_annotation_content(element: &ContentElement) -> (r: bool)
    ensures
        r == is_annotation_element(element@),
{
    match element {
        ContentElement::Paragraph { text } => is_annotation_paragraph(text.as_str()),
        _ => false,
    }
}

/// The first index at or behind `cursor` that holds no annotation.
pub open spec fn past_annotations(elements: Seq<Spanned<ElementView>>, cursor: int) -> int
    decreases elements.len() - cursor,
{
    if 0 <= cursor < elements.len() && is_annotation_element(elements[cursor].node) {
        past_annotations(elements, cursor + 1)
    } else {
        cursor
    }
}

/// The first index at or behind `cursor` that holds no annotation.
pub fn skip_annotations(elements: &im::Vector<Spanned<ContentElement>>, cursor: usize) -> (r: usize)
    requires
        cursor <= vector::element_items(*elements).len(),
    ensures
        r == past_annotations(vector::element_items(*elements), cursor as int),
        cursor <= r <= vector::element_items(*elements).len(),
{
    let ghost items = vector::element_items(*elements);
    let n = element_count(elements);
    let mut i: usize = cursor;
    while i < n
        invariant
            cursor <= i <= n,
            n == items.len(),
            items == vector::element_items(*elements),
            past_annotations(items, i as int) == past_annotations(items, cursor as int),
        decreases n - i,
    {
        if !is_annotation_content(&element_at(elements, i).node) {
            return i;
        }
        i += 1;
    }
    i
}

/// Where the run of elements of the given kind ends that begins at `cursor` and
/// takes `max` of them at most. Annotations among them are passed over.
pub open spec fn run_end(
    elements: Seq<Spanned<ElementView>>,
    cursor: int,
    kind: Element,
    max: int,
) -> int
    decreases elements.len() - cursor,
{
    if max > 0 && 0 <= cursor < elements.len() {
        if is_annotation_element(elements[cursor].node) {
            run_end(elements, cursor + 1, kind, max)
        } else if fits_slot(elements[cursor].node, kind) {
            run_end(elements, cursor + 1, kind, max - 1)
        } else {
            cursor
        }
    } else {
        cursor
    }
}

/// The elements of the given kind, `max` at most, that stand from `cursor` on with
/// nothing but annotations among them.
pub open spec fn run_elements(
    elements: Seq<Spanned<ElementView>>,
    cursor: int,
    kind: Element,
    max: int,
) -> Seq<Spanned<ElementView>>
    decreases elements.len() - cursor,
{
    if max > 0 && 0 <= cursor < elements.len() {
        if is_annotation_element(elements[cursor].node) {
            run_elements(elements, cursor + 1, kind, max)
        } else if fits_slot(elements[cursor].node, kind) {
            seq![elements[cursor]] + run_elements(elements, cursor + 1, kind, max - 1)
        } else {
            seq![]
        }
    } else {
        seq![]
    }
}

/// The first index at or behind `cursor` that holds a separator, or the number
/// of elements.
pub open spec fn separator_from(elements: Seq<Spanned<ElementView>>, cursor: int) -> int
    decreases elements.len() - cursor,
{
    if 0 <= cursor < elements.len() && !is_separator(elements[cursor].node) {
        separator_from(elements, cursor + 1)
    } else {
        cursor
    }
}

/// What the slots of a grammar take of a sequence of elements.
#[verifier::ext_equal]
pub struct Assignment {
    /// The slots that were reached.
    pub slots: Seq<SlotView>,
    /// Where the body begins.
    pub cursor: int,
    /// The place of the separator before it.
    pub separator: Option<Span>,
}

/// The assignment with the body behind the next separator.
pub open spec fn assign_rest(elements: Seq<Spanned<ElementView>>, cursor: int) -> Assignment {
    let at = separator_from(elements, cursor);
    if 0 <= at < elements.len() {
        Assignment { slots: seq![], cursor: at + 1, separator: Some(elements[at].span) }
    } else {
        Assignment { slots: seq![], cursor: at, separator: None }
    }
}

/// What the given slots take of the elements from `cursor` on. A slot takes the
/// elements of its kind that stand next, and no annotations; a separator ends the
/// slots.
pub open spec fn assign_from(
    elements: Seq<Spanned<ElementView>>,
    slots: Seq<Slot>,
    cursor: int,
) -> Assignment
    decreases slots.len(),
{
    if slots.len() == 0 {
        assign_rest(elements, cursor)
    } else {
        let from = past_annotations(elements, cursor);
        let max = slots[0].max_elements() as int;
        let to = run_end(elements, from, slots[0].element, max);
        let taken = SlotView {
            name: slots[0].name@,
            elements: run_elements(elements, from, slots[0].element, max),
        };
        if 0 <= to < elements.len() && is_separator(elements[to].node) {
            Assignment { slots: seq![taken], cursor: to + 1, separator: Some(elements[to].span) }
        } else {
            let rest = assign_from(elements, slots.skip(1), to);
            Assignment { slots: seq![taken] + rest.slots, ..rest }
        }
    }
}

/// The document that a grammar makes of a sequence of elements.
pub open spec fn assigned(elements: Seq<Spanned<ElementView>>, grammar: Grammar) -> DocumentView {
    let a = assign_from(elements, grammar.preamble@, 0);
    DocumentView {
        preamble: a.slots,
        body: elements.skip(a.cursor),
        has_separator: a.separator is Some,
        separator_span: a.separator,
    }
}

/// A run does not reach past the elements nor past a separator, takes no more than
/// `max` elements, and takes only elements of its kind that are no annotations.
pub proof fn lemma_run(
    elements: Seq<Spanned<ElementView>>,
    cursor: int,
    kind: Element,
    max: int,
)
    requires
        0 <= cursor <= elements.len(),
        0 <= max,
    ensures
        cursor <= run_end(elements, cursor, kind, max) <= elements.len(),
        run_elements(elements, cursor, kind, max).len() <= max,
        forall|k: int|
            cursor <= k < run_end(elements, cursor, kind, max) ==> !is_separator(
                (#[trigger] elements[k]).node,
            ),
        forall|k: int|
            0 <= k < run_elements(elements, cursor, kind, max).len() ==> {
                let e = #[trigger] run_elements(elements, cursor, kind, max)[k];
                fits_slot(e.node, kind) && !is_annotation_element(e.node)
            },
    decreases elements.len() - cursor,
{
    if max > 0 && cursor < elements.len() {
        if is_annotation_element(elements[cursor].node) {
            lemma_run(elements, cursor + 1, kind, max);
        } else if fits_slot(elements[cursor].node, kind) {
            lemma_run(elements, cursor + 1, kind, max - 1);
            let rest = run_elements(elements, cursor + 1, kind, max - 1);
            assert forall|k: int|
                0 <= k < run_elements(elements, cursor, kind, max).len() implies {
                let e = #[trigger] run_elements(elements, cursor, kind, max)[k];
                fits_slot(e.node, kind) && !is_annotation_element(e.node)
            } by {
                if k > 0 {
                    assert(run_elements(elements, cursor, kind, max)[k] == rest[k - 1]);
                }
            }
        }
    }
}

/// Takes the elements of the slot's kind that stand at `cursor`.
fn take_run(
    elements: &im::Vector<Spanned<ContentElement>>,
    cursor: usize,
    slot: &Slot,
) -> (r: (im::Vector<Spanned<ContentElement>>, usize))
    requires
        cursor <= vector::element_items(*elements).len(),
    ensures
        r.1 == run_end(
            vector::element_items(*elements),
            cursor as int,
            slot.element,
            slot.max_elements() as int,
        ),
        cursor <= r.1 <= vector::element_items(*elements).len(),
        vector::element_items(r.0) == run_elements(
            vector::element_items(*elements),
            cursor as int,
            slot.element,
            slot.max_elements() as int,
        ),
{
    let ghost items = vector::element_items(*elements);
    let n = element_count(elements);
    let max = slot.max_count();
    let ghost whole = run_elements(items, cursor as int, slot.element, max as int);
    let mut taken = no_elements();
    let mut count: usize = 0;
    let mut i: usize = cursor;
    proof {
        assert(vector::element_items(taken) + whole =~= whole);
    }
    while count < max && i < n
        invariant
            cursor <= i <= n,
            n == items.len(),
            items == vector::element_items(*elements),
            count == vector::element_items(taken).len(),
            count <= i,
            count <= max,
            run_end(items, i as int, slot.element, max - count) == run_end(
                items,
                cursor as int,
                slot.element,
                max as int,
            ),
            whole == run_elements(items, cursor as int, slot.element, max as int),
            vector::element_items(taken) + run_elements(
                items,
                i as int,
                slot.element,
                max - count,
            ) == whole,
        ensures
            cursor <= i <= n,
            i == run_end(items, cursor as int, slot.element, max as int),
            vector::element_items(taken) == whole,
        decreases n - i,
    {
        let element = element_at(elements, i);
        if !is_annotation_content(&element.node) {
            if !element_matches_slot(&element.node, &slot.element) {
                proof {
                    assert(vector::element_items(taken) + Seq::<Spanned<ElementView>>::empty()
                        =~= vector::element_items(taken));
                }
                break;
            }
            let ghost before = vector::element_items(taken);
            push_element(&mut taken, element.clone());
            proof {
                let rest = run_elements(items, i + 1, slot.element, max - count - 1);
                assert(before + (seq![items[i as int]] + rest) =~= before.push(items[i as int])
                    + rest);
            }
            count += 1;
        }
        i += 1;
    }
    (taken, i)
}

/// Assign elements from a flat document to named grammar slots.
///
/// The slots of the preamble are walked in the order of their declaration; each
/// takes the elements of its kind that stand next. Paragraphs that hold nothing
/// but an annotation such as `{#slot-name}` are passed over: no slot holds one. A separator ends
/// the preamble; what follows it is the body. Where there is no separator the
/// body is empty.
pub fn assign_slots(elements: &im::Vector<Spanned<ContentElement>>, grammar: &Grammar) -> (r:
    Document)
    ensures
        r@ == assigned(vector::element_items(*elements), *grammar),
{
    let ghost items = vector::element_items(*elements);
    let ghost slots = grammar.preamble@;
    let n = element_count(elements);
    let mut preamble = no_slots();
    let mut separator_span: Option<Span> = None;
    let mut cursor: usize = 0;
    let mut i: usize = 0;
    proof {
        assert(slots.skip(0) == slots);
        assert(vector::slot_items(preamble) + assign_from(items, slots, 0).slots == assign_from(
            items,
            slots,
            0,
        ).slots);
    }
    while i < grammar.preamble.len() && separator_span.is_none()
        invariant
            i <= grammar.preamble.len(),
            cursor <= n,
            n == items.len(),
            items == vector::element_items(*elements),
            slots == grammar.preamble@,
            vector::slot_items(preamble).len() == i,
            ({
                let all = assign_from(items, slots, 0);
                let rest = assign_from(items, slots.skip(i as int), cursor as int);
                if separator_span is Some {
                    &&& vector::slot_items(preamble) == all.slots
                    &&& cursor == all.cursor
                    &&& separator_span == all.separator
                } else {
                    &&& vector::slot_items(preamble) + rest.slots == all.slots
                    &&& rest.cursor == all.cursor
                    &&& rest.separator == all.separator
                }
            }),
        decreases grammar.preamble.len() - i,
    {
        let slot = &grammar.preamble[i];
        let ghost before = vector::slot_items(preamble);
        let ghost here = slots.skip(i as int);
        let ghost at = cursor as int;
        proof {
            assert(here[0] == *slot);
            assert(here.skip(1) == slots.skip(i + 1));
        }
        let from = skip_annotations(elements, cursor);
        let (taken, to) = take_run(elements, from, slot);
        let filled = DocumentSlot { name: slot.name.clone(), elements: taken };
        let ghost view = filled@;
        push_slot(&mut preamble, filled);
        cursor = to;
        proof {
            let rest = assign_from(items, here.skip(1), to as int);
            assert(before + seq![view] == before.push(view));
            assert(before + (seq![view] + rest.slots) == before.push(view) + rest.slots);
        }
        if cursor < n && is_separator_element(&element_at(elements, cursor).node) {
            separator_span = Some(element_at(elements, cursor).span);
            cursor += 1;
        }
        i += 1;
    }
    if separator_span.is_none() {
        proof {
            assert(slots.skip(i as int) =~= Seq::<Slot>::empty());
            assert(vector::slot_items(preamble) + Seq::<SlotView>::empty() == vector::slot_items(
                preamble,
            ));
        }
        let ghost start = cursor as int;
        while cursor < n && !is_separator_element(&element_at(elements, cursor).node)
            invariant
                start <= cursor <= n,
                n == items.len(),
                items == vector::element_items(*elements),
                separator_from(items, cursor as int) == separator_from(items, start),
            decreases n - cursor,
        {
            cursor += 1;
        }
        if cursor < n {
            separator_span = Some(element_at(elements, cursor).span);
            cursor += 1;
        }
    }
    let body = elements_from(elements, cursor);
    Document { preamble, body, has_separator: separator_span.is_some(), separator_span }
}

/// Parse a markdown content document and assign its elements to grammar slots.
pub fn parse_and_assign(input: &str, grammar: &Grammar) -> (r: Result<Document, ContentError>)
    ensures
        r matches Ok(doc) && doc@ == assigned(
            parser::elements_of(input@, markdown::markdown_events(input@)),
            *grammar,
        ),
{
    match parse_document(input) {
        Ok(flat) => Ok(assign_slots(&flat.elements, grammar)),
        Err(e) => Err(e),
    }
}

/// A stretch without a separator does not change which separator comes next.
proof fn lemma_separator_skip(elements: Seq<Spanned<ElementView>>, from: int, to: int)
    requires
        0 <= from <= to <= elements.len(),
        forall|k: int| from <= k < to ==> !is_separator((#[trigger] elements[k]).node),
    ensures
        separator_from(elements, from) == separator_from(elements, to),
    decreases to - from,
{
    if from < to {
        assert(!is_separator(elements[from].node));
        lemma_separator_skip(elements, from + 1, to);
    }
}

/// Annotations are passed over within the elements, and no separator is.
proof fn lemma_past_annotations(elements: Seq<Spanned<ElementView>>, cursor: int)
    requires
        0 <= cursor <= elements.len(),
    ensures
        cursor <= past_annotations(elements, cursor) <= elements.len(),
        forall|k: int|
            cursor <= k < past_annotations(elements, cursor) ==> !is_separator(
                (#[trigger] elements[k]).node,
            ),
    decreases elements.len() - cursor,
{
    if cursor < elements.len() && is_annotation_element(elements[cursor].node) {
        lemma_past_annotations(elements, cursor + 1);
    }
}

/// The slots end at the next separator, whatever they take before it.
proof fn lemma_assign_separator(elements: Seq<Spanned<ElementView>>, slots: Seq<Slot>, cursor: int)
    requires
        0 <= cursor <= elements.len(),
    ensures
        assign_from(elements, slots, cursor).cursor == assign_rest(elements, cursor).cursor,
        assign_from(elements, slots, cursor).separator == assign_rest(elements, cursor).separator,
    decreases slots.len(),
{
    if slots.len() > 0 {
        let from = past_annotations(elements, cursor);
        let max = slots[0].max_elements() as int;
        let to = run_end(elements, from, slots[0].element, max);
        lemma_past_annotations(elements, cursor);
        lemma_run(elements, from, slots[0].element, max);
        lemma_separator_skip(elements, cursor, to);
        lemma_assign_separator(elements, slots.skip(1), to);
    }
}

/// The next separator lies within the elements, with none before it.
proof fn lemma_separator_from(elements: Seq<Spanned<ElementView>>, cursor: int)
    requires
        0 <= cursor <= elements.len(),
    ensures
        cursor <= separator_from(elements, cursor) <= elements.len(),
        separator_from(elements, cursor) < elements.len() ==> is_separator(
            elements[separator_from(elements, cursor)].node,
        ),
        forall|k: int|
            cursor <= k < separator_from(elements, cursor) ==> !is_separator(
                (#[trigger] elements[k]).node,
            ),
    decreases elements.len() - cursor,
{
    if cursor < elements.len() && !is_separator(elements[cursor].node) {
        lemma_separator_from(elements, cursor + 1);
    }
}

/// A document has a separator exactly where its elements hold one; the body is
/// what follows the first separator, and empty where there is none.
pub proof fn law_body_follows_first_separator(
    elements: Seq<Spanned<ElementView>>,
    grammar: Grammar,
    at: int,
)
    requires
        0 <= at <= elements.len(),
        at < elements.len() ==> is_separator(elements[at].node),
        forall|k: int| 0 <= k < at ==> !is_separator((#[trigger] elements[k]).node),
    ensures
        assigned(elements, grammar).has_separator <==> at < elements.len(),
        at < elements.len() ==> assigned(elements, grammar).body == elements.skip(at + 1),
        at < elements.len() ==> assigned(elements, grammar).separator_span == Some(
            elements[at].span,
        ),
        at == elements.len() ==> assigned(elements, grammar).body.len() == 0,
        at == elements.len() ==> assigned(elements, grammar).separator_span is None,
{
    lemma_assign_separator(elements, grammar.preamble@, 0);
    lemma_separator_from(elements, 0);
    let first = separator_from(elements, 0);
    if first < at {
        assert(!is_separator(elements[first].node));
    }
    if at < first {
        assert(!is_separator(elements[at].node));
    }
}

/// Slot `i` of what is assigned is slot `i` of the slots, holds what fits it,
/// and no more than it may hold.
proof fn lemma_assign_slots(
    elements: Seq<Spanned<ElementView>>,
    slots: Seq<Slot>,
    cursor: int,
    i: int,
)
    requires
        0 <= cursor <= elements.len(),
        0 <= i < assign_from(elements, slots, cursor).slots.len(),
    ensures
        assign_from(elements, slots, cursor).slots.len() <= slots.len(),
        ({
            let slot = assign_from(elements, slots, cursor).slots[i];
            &&& slot.name == slots[i].name@
            &&& slot.elements.len() <= slots[i].max_elements()
            &&& forall|k: int|
                0 <= k < slot.elements.len() ==> fits_slot(
                    (#[trigger] slot.elements[k]).node,
                    slots[i].element,
                ) && !is_annotation_element(slot.elements[k].node)
        }),
    decreases slots.len(),
{
    let from = past_annotations(elements, cursor);
    let max = slots[0].max_elements() as int;
    let to = run_end(elements, from, slots[0].element, max);
    lemma_past_annotations(elements, cursor);
    lemma_run(elements, from, slots[0].element, max);
    let all = assign_from(elements, slots, cursor).slots;
    assert(all[0].elements == run_elements(elements, from, slots[0].element, max));
    if !(0 <= to < elements.len() && is_separator(elements[to].node)) {
        let rest = assign_from(elements, slots.skip(1), to).slots;
        assert(all == seq![all[0]] + rest);
        if rest.len() > 0 {
            lemma_assign_slots(elements, slots.skip(1), to, if i > 0 {
                i - 1
            } else {
                0
            });
        }
        if i > 0 {
            assert(all[i] == rest[i - 1]);
        }
    }
}

/// The slots of a document are the first slots of its grammar, in order; each
/// holds elements of its kind only, no annotations, and no more than its grammar
/// allows.
pub proof fn law_slots_follow_grammar(
    elements: Seq<Spanned<ElementView>>,
    grammar: Grammar,
    i: int,
)
    requires
        0 <= i < assigned(elements, grammar).preamble.len(),
    ensures
        assigned(elements, grammar).preamble.len() <= grammar.preamble@.len(),
        assigned(elements, grammar).preamble[i].name == grammar.preamble@[i].name@,
        assigned(elements, grammar).preamble[i].elements.len()
            <= grammar.preamble@[i].max_elements(),
        forall|k: int|
            0 <= k < assigned(elements, grammar).preamble[i].elements.len() ==> fits_slot(
                (#[trigger] assigned(elements, grammar).preamble[i].elements[k]).node,
                grammar.preamble@[i].element,
            ) && !is_annotation_element(assigned(elements, grammar).preamble[i].elements[k].node),
{
    lemma_assign_slots(elements, grammar.preamble@, 0, i);
}

/// Whether the given places, in increasing order and within the given bounds, are
/// those of some elements among others.
pub open spec fn stands_at(
    some: Seq<Spanned<ElementView>>,
    elements: Seq<Spanned<ElementView>>,
    places: Seq<int>,
    from: int,
    to: int,
) -> bool {
    &&& places.len() == some.len()
    &&& forall|i: int|
        0 <= i < places.len() ==> from <= #[trigger] places[i] < to && some[i]
            == elements[places[i]]
    &&& forall|i: int, j: int| 0 <= i < j < places.len() ==> places[i] < places[j]
}

/// The elements of slots are those of the first and then those of the others.
proof fn lemma_first_slot_flat(first: SlotView, rest: Seq<SlotView>)
    ensures
        document::slots_flat(seq![first] + rest) == first.elements + document::slots_flat(rest),
    decreases rest.len(),
{
    let all = seq![first] + rest;
    if rest.len() == 0 {
        assert(all.drop_last() =~= seq![]);
        assert(document::slots_flat(all.drop_last()) =~= seq![]);
        assert(document::slots_flat(all) =~= first.elements + document::slots_flat(rest));
    } else {
        lemma_first_slot_flat(first, rest.drop_last());
        assert(all.drop_last() =~= seq![first] + rest.drop_last());
        assert(document::slots_flat(all) =~= first.elements + document::slots_flat(rest));
    }
}

/// What a run takes stands, in order, within the run.
proof fn lemma_run_in_order(
    elements: Seq<Spanned<ElementView>>,
    cursor: int,
    kind: Element,
    max: int,
) -> (places: Seq<int>)
    requires
        0 <= cursor <= elements.len(),
        0 <= max,
    ensures
        stands_at(
            run_elements(elements, cursor, kind, max),
            elements,
            places,
            cursor,
            run_end(elements, cursor, kind, max),
        ),
    decreases elements.len() - cursor,
{
    lemma_run(elements, cursor, kind, max);
    if max > 0 && cursor < elements.len() {
        if is_annotation_element(elements[cursor].node) {
            lemma_run_in_order(elements, cursor + 1, kind, max)
        } else if fits_slot(elements[cursor].node, kind) {
            let rest = lemma_run_in_order(elements, cursor + 1, kind, max - 1);
            lemma_run(elements, cursor + 1, kind, max - 1);
            let places = seq![cursor] + rest;
            let some = run_elements(elements, cursor, kind, max);
            assert forall|i: int| 0 <= i < places.len() implies cursor <= #[trigger] places[i]
                < run_end(elements, cursor, kind, max) && some[i] == elements[places[i]] by {
                if i > 0 {
                    assert(places[i] == rest[i - 1]);
                }
            }
            assert forall|i: int, j: int| 0 <= i < j < places.len() implies places[i]
                < places[j] by {
                assert(places[j] == rest[j - 1]);
                if i > 0 {
                    assert(places[i] == rest[i - 1]);
                }
            }
            places
        } else {
            Seq::empty()
        }
    } else {
        Seq::empty()
    }
}

/// What the slots take stands, in order, between the cursor and the next separator.
proof fn lemma_slots_in_order(
    elements: Seq<Spanned<ElementView>>,
    slots: Seq<Slot>,
    cursor: int,
) -> (places: Seq<int>)
    requires
        0 <= cursor <= elements.len(),
    ensures
        stands_at(
            document::slots_flat(assign_from(elements, slots, cursor).slots),
            elements,
            places,
            cursor,
            separator_from(elements, cursor),
        ),
    decreases slots.len(),
{
    if slots.len() == 0 {
        Seq::empty()
    } else {
        let from = past_annotations(elements, cursor);
        let max = slots[0].max_elements() as int;
        let to = run_end(elements, from, slots[0].element, max);
        lemma_past_annotations(elements, cursor);
        lemma_run(elements, from, slots[0].element, max);
        lemma_separator_skip(elements, cursor, to);
        lemma_separator_from(elements, to);
        let taken = SlotView {
            name: slots[0].name@,
            elements: run_elements(elements, from, slots[0].element, max),
        };
        let first = lemma_run_in_order(elements, from, slots[0].element, max);
        if to < elements.len() && is_separator(elements[to].node) {
            lemma_first_slot_flat(taken, seq![]);
            assert(seq![taken] + seq![] =~= seq![taken]);
            assert(document::slots_flat(seq![taken]) =~= taken.elements);
            first
        } else {
            let rest = assign_from(elements, slots.skip(1), to);
            let others = lemma_slots_in_order(elements, slots.skip(1), to);
            lemma_first_slot_flat(taken, rest.slots);
            let places = first + others;
            let flat = taken.elements + document::slots_flat(rest.slots);
            assert forall|i: int| 0 <= i < places.len() implies cursor <= #[trigger] places[i]
                < separator_from(elements, cursor) && flat[i] == elements[places[i]] by {
                if i >= first.len() {
                    assert(places[i] == others[i - first.len()]);
                }
            }
            assert forall|i: int, j: int| 0 <= i < j < places.len() implies places[i]
                < places[j] by {
                if i >= first.len() {
                    assert(places[i] == others[i - first.len()]);
                }
                if j >= first.len() {
                    assert(places[j] == others[j - first.len()]);
                }
            }
            places
        }
    }
}

/// The elements of a document that a grammar makes are elements that were given, in
/// the order in which they were, none of them twice.
pub proof fn law_flat_elements_keep_their_order(
    elements: Seq<Spanned<ElementView>>,
    grammar: Grammar,
)
    ensures
        exists|places: Seq<int>|
            stands_at(
                document::document_flat(assigned(elements, grammar)),
                elements,
                places,
                0,
                elements.len() as int,
            ),
{
    let doc = assigned(elements, grammar);
    let at = separator_from(elements, 0);
    lemma_separator_from(elements, 0);
    lemma_assign_separator(elements, grammar.preamble@, 0);
    let first = lemma_slots_in_order(elements, grammar.preamble@, 0);
    let behind = Seq::new((elements.len() - at) as nat, |i: int| at + i);
    let places = first + behind;
    let flat = document::document_flat(doc);
    let slots = document::slots_flat(doc.preamble);
    if at < elements.len() {
        assert(document::separator_part(doc) + doc.body =~= elements.skip(at)) by {
            assert(elements[at] == (Spanned { node: ElementView::Separator, span: elements[at].span }));
        }
    } else {
        assert(document::separator_part(doc) + doc.body =~= elements.skip(at));
    }
    assert(flat =~= slots + elements.skip(at));
    assert forall|i: int| 0 <= i < places.len() implies 0 <= #[trigger] places[i] < elements.len()
        && flat[i] == elements[places[i]] by {
        if i < first.len() {
            assert(places[i] == first[i]);
        }
    }
    assert forall|i: int, j: int| 0 <= i < j < places.len() implies places[i] < places[j] by {
        if i < first.len() {
            assert(places[i] == first[i]);
        }
        if j < first.len() {
            assert(places[j] == first[j]);
        }
    }
    assert(stands_at(flat, elements, places, 0, elements.len() as int));
}

/// The elements among others that are no annotations, in order.
pub open spec fn no_annotations(elements: Seq<Spanned<ElementView>>) -> Seq<Spanned<ElementView>> {
    elements.filter(|e: Spanned<ElementView>| !is_annotation_element(e.node))
}

/// Whether a slot takes what stands from `after` to `end`: nothing but annotations and
/// elements of its kind, no more of these than it may hold, and as many as it can.
pub open spec fn is_taken(
    elements: Seq<Spanned<ElementView>>,
    slot: Slot,
    after: int,
    end: int,
) -> bool {
    let n = elements.len();
    let count = no_annotations(elements.subrange(after, end)).len();
    &&& 0 <= after <= end <= n
    &&& forall|j: int|
        after <= j < end ==> {
            let e = (#[trigger] elements[j]).node;
            ||| e is Paragraph && is_annotation(e->Paragraph_text)
            ||| match slot.element {
                Element::Heading { .. } => e is Heading,
                Element::Paragraph => e is Paragraph,
                Element::Link { .. } => e is Link || e is LinkExpression,
                Element::Image { .. } => e is Image,
                Element::List => e is List,
            }
        }
    &&& count <= slot.max_elements()
    &&& if count == slot.max_elements() && count > 0 {
        !is_annotation_element(elements[end - 1].node)
    } else {
        end == n || !is_annotation_element(elements[end].node) && (count == slot.max_elements()
            || !match slot.element {
            Element::Heading { .. } => elements[end].node is Heading,
            Element::Paragraph => elements[end].node is Paragraph,
            Element::Link { .. } => elements[end].node is Link || elements[end].node
                is LinkExpression,
            Element::Image { .. } => elements[end].node is Image,
            Element::List => elements[end].node is List,
        })
    }
}

/// The first of some elements that is no annotation comes first.
proof fn lemma_no_annotations_first(first: Spanned<ElementView>, rest: Seq<Spanned<ElementView>>)
    ensures
        no_annotations(seq![first] + rest) == if is_annotation_element(first.node) {
            no_annotations(rest)
        } else {
            seq![first] + no_annotations(rest)
        },
{
    let keep = |e: Spanned<ElementView>| !is_annotation_element(e.node);
    Seq::filter_distributes_over_add(seq![first], rest, keep);
    reveal_with_fuel(Seq::filter, 2);
    assert(seq![first].drop_last() =~= seq![]);
    assert(Seq::<Spanned<ElementView>>::empty().filter(keep) =~= seq![]);
    if is_annotation_element(first.node) {
        assert(seq![first].filter(keep) =~= seq![]);
        assert(seq![first].filter(keep) + rest.filter(keep) =~= rest.filter(keep));
    } else {
        assert(seq![first].filter(keep) =~= seq![first]);
    }
}

/// A run is what a slot takes, seen from any place in it.
proof fn lemma_run_is(
    elements: Seq<Spanned<ElementView>>,
    cursor: int,
    kind: Element,
    max: int,
    end: int,
)
    requires
        0 <= cursor <= end <= elements.len(),
        forall|j: int|
            cursor <= j < end ==> is_annotation_element((#[trigger] elements[j]).node) || fits_slot(
                elements[j].node,
                kind,
            ),
        ({
            let count = no_annotations(elements.subrange(cursor, end)).len();
            &&& count <= max
            &&& if count == max {
                end == cursor || !is_annotation_element(elements[end - 1].node)
            } else {
                end == elements.len() || !is_annotation_element(elements[end].node) && !fits_slot(
                    elements[end].node,
                    kind,
                )
            }
        }),
    ensures
        run_end(elements, cursor, kind, max) == end,
        run_elements(elements, cursor, kind, max) == no_annotations(
            elements.subrange(cursor, end),
        ),
    decreases end - cursor,
{
    let own = elements.subrange(cursor, end);
    if cursor < end {
        let rest = elements.subrange(cursor + 1, end);
        assert(own =~= seq![elements[cursor]] + rest);
        lemma_no_annotations_first(elements[cursor], rest);
        if is_annotation_element(elements[cursor].node) {
            if end == cursor + 1 {
                assert(rest =~= seq![]);
                lemma_no_annotations_none();
            }
            if max == 0 {
                lemma_no_annotations_empty(rest, elements[end - 1]);
            }
            lemma_run_is(elements, cursor + 1, kind, max, end);
        } else {
            assert(fits_slot(elements[cursor].node, kind));
            lemma_run_is(elements, cursor + 1, kind, max - 1, end);
        }
    } else {
        assert(own =~= seq![]);
        lemma_no_annotations_none();
    }
}

/// Nothing holds nothing.
proof fn lemma_no_annotations_none()
    ensures
        no_annotations(seq![]) == Seq::<Spanned<ElementView>>::empty(),
{
    reveal(Seq::filter);
    let keep = |e: Spanned<ElementView>| !is_annotation_element(e.node);
    assert(Seq::<Spanned<ElementView>>::empty().filter(keep) =~= seq![]);
}

/// What ends with an element that is no annotation holds one.
proof fn lemma_no_annotations_empty(
    elements: Seq<Spanned<ElementView>>,
    last: Spanned<ElementView>,
)
    ensures
        elements.len() > 0 && elements.last() == last && !is_annotation_element(last.node)
            ==> no_annotations(elements).len() > 0,
{
    reveal(Seq::filter);
}

/// Annotations at the start do not change what is taken.
proof fn lemma_leading_annotations(
    elements: Seq<Spanned<ElementView>>,
    after: int,
    from: int,
    end: int,
)
    requires
        0 <= after <= from <= end <= elements.len(),
        forall|j: int|
            after <= j < from ==> is_annotation_element((#[trigger] elements[j]).node),
    ensures
        no_annotations(elements.subrange(after, end)) == no_annotations(
            elements.subrange(from, end),
        ),
    decreases from - after,
{
    if after < from {
        assert(elements.subrange(after, end) =~= seq![elements[after]] + elements.subrange(
            after + 1,
            end,
        ));
        assert(is_annotation_element(elements[after].node));
        lemma_no_annotations_first(elements[after], elements.subrange(after + 1, end));
        lemma_leading_annotations(elements, after + 1, from, end);
    }
}

/// What the annotations at a place end before.
proof fn lemma_past_is(elements: Seq<Spanned<ElementView>>, cursor: int)
    requires
        0 <= cursor <= elements.len(),
    ensures
        cursor <= past_annotations(elements, cursor) <= elements.len(),
        forall|j: int|
            cursor <= j < past_annotations(elements, cursor) ==> is_annotation_element(
                (#[trigger] elements[j]).node,
            ),
        past_annotations(elements, cursor) < elements.len() ==> !is_annotation_element(
            elements[past_annotations(elements, cursor)].node,
        ),
    decreases elements.len() - cursor,
{
    if cursor < elements.len() && is_annotation_element(elements[cursor].node) {
        lemma_past_is(elements, cursor + 1);
    }
}

/// What a slot takes is a run behind the annotations.
proof fn lemma_taken_is(
    elements: Seq<Spanned<ElementView>>,
    slot: Slot,
    after: int,
    end: int,
)
    requires
        is_taken(elements, slot, after, end),
    ensures
        ({
            let from = past_annotations(elements, after);
            let max = slot.max_elements() as int;
            &&& run_end(elements, from, slot.element, max) == end
            &&& run_elements(elements, from, slot.element, max) == no_annotations(
                elements.subrange(after, end),
            )
        }),
{
    let from = past_annotations(elements, after);
    let max = slot.max_elements() as int;
    let count = no_annotations(elements.subrange(after, end)).len();
    lemma_past_is(elements, after);
    if from > end {
        assert(is_annotation_element(elements[end].node));
        lemma_only_annotations(elements, after, end);
    }
    lemma_leading_annotations(elements, after, from, end);
    assert forall|j: int| from <= j < end implies is_annotation_element(
        (#[trigger] elements[j]).node,
    ) || fits_slot(elements[j].node, slot.element) by {}
    if count == max && count == 0 && from < end {
        lemma_has_no_annotation(elements.subrange(from, end), 0);
    }
    lemma_run_is(elements, from, slot.element, max, end);
}

/// Annotations alone hold nothing else.
proof fn lemma_only_annotations(elements: Seq<Spanned<ElementView>>, after: int, end: int)
    requires
        0 <= after <= end <= elements.len(),
        forall|j: int| after <= j < end ==> is_annotation_element((#[trigger] elements[j]).node),
    ensures
        no_annotations(elements.subrange(after, end)).len() == 0,
{
    lemma_leading_annotations(elements, after, end, end);
    assert(elements.subrange(end, end) =~= seq![]);
    lemma_no_annotations_none();
}

/// An element that is no annotation is kept.
proof fn lemma_has_no_annotation(elements: Seq<Spanned<ElementView>>, i: int)
    requires
        0 <= i < elements.len(),
        !is_annotation_element(elements[i].node),
    ensures
        no_annotations(elements).len() > 0,
{
    reveal(Seq::filter);
    let keep = |e: Spanned<ElementView>| !is_annotation_element(e.node);
    elements.filter_lemma(keep);
    let kept = elements.filter(keep);
    assert(keep(elements[i]));
    assert(kept.contains(elements[i]));
}

/// Whether `ends` are the places up to which the first slots take their elements, each
/// from where the one before it ends, until one ends at a separator.
pub open spec fn is_taking(
    elements: Seq<Spanned<ElementView>>,
    slots: Seq<Slot>,
    cursor: int,
    ends: Seq<int>,
) -> bool {
    let n = elements.len();
    &&& ends.len() <= slots.len()
    &&& forall|k: int|
        0 <= k < ends.len() ==> is_taken(
            elements,
            slots[k],
            if k == 0 {
                cursor
            } else {
                ends[k - 1]
            },
            #[trigger] ends[k],
        )
    &&& forall|k: int|
        0 <= k < ends.len() - 1 ==> #[trigger] ends[k] == n || !(elements[ends[k]].node
            is Separator)
    &&& ends.len() < slots.len() ==> ends.len() > 0 && ends.last() < n
        && elements[ends.last()].node is Separator
}

/// The slots behind the first take what stands behind what it takes.
proof fn lemma_taking_goes_on(
    elements: Seq<Spanned<ElementView>>,
    slots: Seq<Slot>,
    cursor: int,
    ends: Seq<int>,
)
    requires
        is_taking(elements, slots, cursor, ends),
        ends.len() > 1,
    ensures
        is_taking(elements, slots.skip(1), ends[0], ends.skip(1)),
{
    let t = slots.skip(1);
    let e = ends.skip(1);
    assert forall|i: int| 0 <= i < e.len() implies is_taken(
        elements,
        t[i],
        if i == 0 {
            ends[0]
        } else {
            e[i - 1]
        },
        #[trigger] e[i],
    ) by {
        assert(e[i] == ends[i + 1]);
        assert(t[i] == slots[i + 1]);
    }
    assert forall|i: int| 0 <= i < e.len() - 1 implies #[trigger] e[i] == elements.len() || !(
    elements[e[i]].node is Separator) by {
        assert(e[i] == ends[i + 1]);
    }
    assert(e.last() == ends.last());
}

/// The slots that are reached hold what they take.
proof fn lemma_assigned_is(
    elements: Seq<Spanned<ElementView>>,
    slots: Seq<Slot>,
    cursor: int,
    ends: Seq<int>,
    k: int,
)
    requires
        0 <= cursor <= elements.len(),
        is_taking(elements, slots, cursor, ends),
        0 <= k < ends.len(),
    ensures
        assign_from(elements, slots, cursor).slots.len() == ends.len(),
        assign_from(elements, slots, cursor).slots[k].name == slots[k].name@,
        assign_from(elements, slots, cursor).slots[k].elements == no_annotations(
            elements.subrange(
                if k == 0 {
                    cursor
                } else {
                    ends[k - 1]
                },
                ends[k],
            ),
        ),
    decreases slots.len(),
{
    assert(is_taken(elements, slots[0], cursor, ends[0]));
    lemma_taken_is(elements, slots[0], cursor, ends[0]);
    let all = assign_from(elements, slots, cursor).slots;
    let to = ends[0];
    if to < elements.len() && elements[to].node is Separator {
        if ends.len() > 1 {
            assert(ends[0] == elements.len() || !(elements[ends[0]].node is Separator));
        }
    } else {
        let t = slots.skip(1);
        let e = ends.skip(1);
        let rest = assign_from(elements, t, to).slots;
        assert(all =~= seq![all[0]] + rest);
        if ends.len() == 1 {
            assert(slots.len() == 1);
            assert(t =~= seq![]);
        } else {
            lemma_taking_goes_on(elements, slots, cursor, ends);
            lemma_assigned_is(elements, t, to, e, if k > 0 {
                k - 1
            } else {
                0
            });
            if k > 0 {
                assert(all[k] == rest[k - 1]);
            }
        }
    }
}

/// A document has the slots of its grammar up to the first that ends at a separator.
/// Each holds just the elements of its kind that stand next, as many as it may hold,
/// without the annotations before and among them.
pub proof fn law_slots_hold_what_stands_next(
    elements: Seq<Spanned<ElementView>>,
    grammar: Grammar,
    ends: Seq<int>,
    k: int,
)
    requires
        is_taking(elements, grammar.preamble@, 0, ends),
        0 <= k < ends.len(),
    ensures
        assigned(elements, grammar).preamble.len() == ends.len(),
        assigned(elements, grammar).preamble[k].name == grammar.preamble@[k].name@,
        assigned(elements, grammar).preamble[k].elements == elements.subrange(
            if k == 0 {
                0
            } else {
                ends[k - 1]
            },
            ends[k],
        ).filter(
            |e: Spanned<ElementView>|
                !(e.node is Paragraph && is_annotation(e.node->Paragraph_text)),
        ),
{
    lemma_assigned_is(elements, grammar.preamble@, 0, ends, k);
    let keep = |e: Spanned<ElementView>| !is_annotation_element(e.node);
    let other = |e: Spanned<ElementView>|
        !(e.node is Paragraph && is_annotation(e.node->Paragraph_text));
    assert(keep =~= other);
}

/// For every sequence of elements and of slots there are places up to which the slots
/// take their elements.
pub proof fn law_slots_take_elements(
    elements: Seq<Spanned<ElementView>>,
    slots: Seq<Slot>,
    cursor: int,
) -> (ends: Seq<int>)
    requires
        0 <= cursor <= elements.len(),
    ensures
        is_taking(elements, slots, cursor, ends),
    decreases slots.len(),
{
    if slots.len() == 0 {
        seq![]
    } else {
        let end = lemma_slot_takes(elements, slots[0], cursor);
        if end < elements.len() && elements[end].node is Separator {
            seq![end]
        } else {
            let rest = law_slots_take_elements(elements, slots.skip(1), end);
            let ends = seq![end] + rest;
            assert forall|k: int| 0 <= k < ends.len() implies is_taken(
                elements,
                slots[k],
                if k == 0 {
                    cursor
                } else {
                    ends[k - 1]
                },
                #[trigger] ends[k],
            ) by {
                if k > 0 {
                    assert(ends[k] == rest[k - 1]);
                    assert(slots.skip(1)[k - 1] == slots[k]);
                }
            }
            assert forall|k: int| 0 <= k < ends.len() - 1 implies #[trigger] ends[k]
                == elements.len() || !(elements[ends[k]].node is Separator) by {
                if k > 0 {
                    assert(ends[k] == rest[k - 1]);
                }
            }
            if rest.len() > 0 {
                assert(ends.last() == rest.last());
            }
            ends
        }
    }
}

/// A slot takes what stands next.
proof fn lemma_slot_takes(
    elements: Seq<Spanned<ElementView>>,
    slot: Slot,
    cursor: int,
) -> (end: int)
    requires
        0 <= cursor <= elements.len(),
    ensures
        is_taken(elements, slot, cursor, end),
{
    let from = past_annotations(elements, cursor);
    lemma_past_is(elements, cursor);
    let end = lemma_run_takes(elements, from, slot.element, slot.max_elements() as int);
    lemma_leading_annotations(elements, cursor, from, end);
    end
}

/// A run takes what stands next.
proof fn lemma_run_takes(
    elements: Seq<Spanned<ElementView>>,
    from: int,
    kind: Element,
    max: int,
) -> (end: int)
    requires
        0 <= from <= elements.len(),
        max >= 0,
    ensures
        from <= end <= elements.len(),
        forall|j: int|
            from <= j < end ==> is_annotation_element((#[trigger] elements[j]).node) || fits_slot(
                elements[j].node,
                kind,
            ),
        ({
            let count = no_annotations(elements.subrange(from, end)).len();
            &&& count <= max
            &&& if count == max {
                end == from || !is_annotation_element(elements[end - 1].node)
            } else {
                end == elements.len() || !is_annotation_element(elements[end].node) && !fits_slot(
                    elements[end].node,
                    kind,
                )
            }
        }),
        max == 0 ==> end == from,
    decreases elements.len() - from,
{
    lemma_no_annotations_none();
    assert(elements.subrange(from, from) =~= seq![]);
    if max > 0 && from < elements.len() {
        let first = elements[from];
        if is_annotation_element(first.node) {
            let end = lemma_run_takes(elements, from + 1, kind, max);
            assert(elements.subrange(from, end) =~= seq![first] + elements.subrange(from + 1, end));
            lemma_no_annotations_first(first, elements.subrange(from + 1, end));
            if end == from + 1 {
                assert(elements.subrange(end, end) =~= seq![]);
            }
            end
        } else if fits_slot(first.node, kind) {
            let end = lemma_run_takes(elements, from + 1, kind, max - 1);
            assert(elements.subrange(from, end) =~= seq![first] + elements.subrange(from + 1, end));
            lemma_no_annotations_first(first, elements.subrange(from + 1, end));
            end
        } else {
            from
        }
    } else {
        from
    }
}

/// White space around it aside, an annotation is what stands between `{#` and the only
/// closing brace at the end.
pub proof fn law_annotations_stand_in_braces(name: Seq<char>)
    ensures
        !name.contains('}') ==> is_annotation(seq!['{', '#'] + name + seq!['}']),
        name.contains('}') ==> !is_annotation(seq!['{', '#'] + name + seq!['}']),
        !is_annotation(seq!['{', '#'] + name) || name.len() > 0 && name.last() == '}'
            || name.len() > 0 && text::is_white(name.last()),
        name.len() > 0 && name[0] != '{' && !text::is_white(name[0]) ==> !is_annotation(name),
{
    let s = seq!['{', '#'] + name + seq!['}'];
    text::lemma_trimmed_is(s);
    if name.contains('}') {
        let k = choose|k: int| 0 <= k < name.len() && name[k] == '}';
        assert(s[k + 2] == '}');
    } else {
        assert forall|k: int| 2 <= k < s.len() - 1 implies s[k] != '}' by {
            assert(name.contains(name[k - 2]));
        }
    }
    let open = seq!['{', '#'] + name;
    if !text::is_white(open.last()) {
        text::lemma_trimmed_is(open);
    }
    if name.len() > 0 && name[0] != '{' && !text::is_white(name[0]) {
        text::lemma_trim_end(name);
    }
}

} // verus!
