//! Edits of single slots of a document.

use vstd::prelude::*;

use crate::diff;
use crate::diff::find_slot;
use crate::document::{ContentElement, Document, DocumentSlot, DocumentView, ElementView, SlotView};
use crate::schema::{Element, Grammar, Slot, Span, Spanned};
use crate::text;
use crate::text::{chars_of, index_from, same, text_between};
use crate::unicode;
use crate::unicode::{debug_str, to_uppercase};
use crate::vector;
use crate::vector::{
    clone_elements, element_at, element_count, insert_slot, no_elements, push_element, set_element,
    set_slot, slot_at, slot_count,
};

verus! {

/// The place of an element that stands in no source.
pub open spec fn no_span() -> Span {
    Span { start: 0, end: 0 }
}

/// The index of the first slot of a grammar with the given name, or the number
/// of slots.
pub open spec fn grammar_index(slots: Seq<Slot>, name: Seq<char>) -> int
    decreases slots.len(),
{
    if slots.len() == 0 || slots[0].name@ == name {
        0
    } else {
        1 + grammar_index(slots.skip(1), name)
    }
}

/// A slot with the name and none before it is the first one.
pub proof fn lemma_grammar_index_is(slots: Seq<Slot>, name: Seq<char>, n: int)
    requires
        0 <= n <= slots.len(),
        n < slots.len() ==> slots[n].name@ == name,
        forall|k: int| 0 <= k < n ==> (#[trigger] slots[k]).name@ != name,
    ensures
        grammar_index(slots, name) == n,
    decreases slots.len(),
{
    if n > 0 {
        assert(slots[0].name@ != name);
        let t = slots.skip(1);
        assert forall|k: int| 0 <= k < n - 1 implies (#[trigger] t[k]).name@ != name by {
            assert(t[k] == slots[k + 1]);
        }
        lemma_grammar_index_is(t, name, n - 1);
    }
}

/// The index of the first slot of a grammar with the given name, or the number
/// of slots.
pub fn find_grammar_slot(grammar: &Grammar, name: &str) -> (r: usize)
    ensures
        r == grammar_index(grammar.preamble@, name@),
        r <= grammar.preamble.len(),
        r < grammar.preamble.len() ==> grammar.preamble@[r as int].name@ == name@,
{
    let mut i: usize = 0;
    while i < grammar.preamble.len()
        invariant
            i <= grammar.preamble.len(),
            forall|k: int| 0 <= k < i ==> (#[trigger] grammar.preamble@[k]).name@ != name@,
        decreases grammar.preamble.len() - i,
    {
        if same(grammar.preamble[i].name.as_str(), name) {
            proof {
                lemma_grammar_index_is(grammar.preamble@, name@, i as int);
            }
            return i;
        }
        i += 1;
    }
    proof {
        lemma_grammar_index_is(grammar.preamble@, name@, i as int);
    }
    i
}

/// The message that a grammar has no slot of the given name.
pub open spec fn unknown_slot(name: Seq<char>) -> Seq<char> {
    "slot '"@ + name + "' not found in grammar"@
}

/// The message that a grammar has no slot of the given name.
pub fn unknown_slot_message(name: &str) -> (r: String)
    ensures
        r@ == unknown_slot(name@),
{
    let mut out = "slot '".to_owned();
    out.append(name);
    out.append("' not found in grammar");
    out
}

/// The element of the given kind that a value writes, or the message that says
/// why it writes none. A link is written as `text|href`, an image as `alt|path`.
pub open spec fn element_from(kind: Element, value: Seq<char>) -> Result<ElementView, Seq<char>> {
    let bar = text::first_index(value, '|');
    match kind {
        Element::Heading { level } => Ok(ElementView::Heading { level: level.min@, text: value }),
        Element::Paragraph => Ok(ElementView::Paragraph { text: value }),
        Element::Link { .. } => if 0 <= bar < value.len() {
            Ok(ElementView::Link { text: value.take(bar), href: value.skip(bar + 1) })
        } else {
            Err("link slot value must be in 'text|href' format, got: "@ + unicode::debug_form(value))
        },
        Element::Image { .. } => if 0 <= bar < value.len() {
            Ok(ElementView::Image { alt: Some(value.take(bar)), path: value.skip(bar + 1) })
        } else {
            Err("image slot value must be in 'alt|path' format, got: "@ + unicode::debug_form(value))
        },
        Element::List => Ok(ElementView::List { source: value }),
    }
}

/// The two parts of `value` at its first `|`, if it has one.
pub fn split_bar(value: &str) -> (r: Option<(String, String)>)
    ensures
        match r {
            Some((left, right)) => {
                &&& text::first_index(value@, '|') < value@.len()
                &&& left@ == value@.take(text::first_index(value@, '|'))
                &&& right@ == value@.skip(text::first_index(value@, '|') + 1)
            },
            None => text::first_index(value@, '|') == value@.len(),
        },
{
    let v = chars_of(value);
    let at = index_from(&v, 0, '|');
    proof {
        assert(v@.skip(0) == v@);
    }
    if at == v.len() {
        return None;
    }
    proof {
        assert(v@.subrange(0, at as int) == v@.take(at as int));
        assert(v@.subrange(at + 1, v@.len() as int) == v@.skip(at + 1));
    }
    Some((text_between(&v, 0, at), text_between(&v, at + 1, v.len())))
}

/// The element of the given kind that a value writes.
pub fn build_element(kind: &Element, new_value: &str) -> (r: Result<ContentElement, String>)
    ensures
        match r {
            Ok(element) => element_from(*kind, new_value@) == Ok::<ElementView, Seq<char>>(element@),
            Err(message) => element_from(*kind, new_value@) == Err::<ElementView, Seq<char>>(
                message@,
            ),
        },
{
    match kind {
        Element::Heading { level } => Ok(
            ContentElement::Heading { level: level.min, text: new_value.to_owned() },
        ),
        Element::Paragraph => Ok(ContentElement::Paragraph { text: new_value.to_owned() }),
        Element::Link { .. } => match split_bar(new_value) {
            Some((text, href)) => {
                proof {
                    text::lemma_first_index(new_value@, '|');
                }
                Ok(ContentElement::Link { text, href })
            },
            None => {
                let mut out = "link slot value must be in 'text|href' format, got: ".to_owned();
                out.append(debug_str(new_value).as_str());
                Err(out)
            },
        },
        Element::Image { .. } => match split_bar(new_value) {
            Some((alt, path)) => {
                proof {
                    text::lemma_first_index(new_value@, '|');
                }
                Ok(ContentElement::Image { alt: Some(alt), path })
            },
            None => {
                let mut out = "image slot value must be in 'alt|path' format, got: ".to_owned();
                out.append(debug_str(new_value).as_str());
                Err(out)
            },
        },
        Element::List => Ok(ContentElement::List { source: new_value.to_owned() }),
    }
}

/// Where a slot that comes at `target` in the grammar goes in a preamble: just
/// behind the last slot that comes before it in the grammar.
pub open spec fn insert_position(preamble: Seq<SlotView>, slots: Seq<Slot>, target: int) -> int
    decreases preamble.len(),
{
    if preamble.len() == 0 {
        0
    } else if grammar_index(slots, preamble.last().name) < target {
        preamble.len() as int
    } else {
        insert_position(preamble.drop_last(), slots, target)
    }
}

/// Where a slot that comes at `target` in the grammar goes in a preamble.
pub fn find_preamble_insert_position(
    preamble: &im::Vector<DocumentSlot>,
    grammar: &Grammar,
    target: usize,
) -> (r: usize)
    requires
        target <= grammar.preamble.len(),
    ensures
        r == insert_position(vector::slot_items(*preamble), grammar.preamble@, target as int),
        r <= vector::slot_items(*preamble).len(),
{
    let ghost items = vector::slot_items(*preamble);
    let n = slot_count(preamble);
    let mut position: usize = 0;
    let mut i: usize = 0;
    proof {
        assert(items.take(0) =~= seq![]);
    }
    while i < n
        invariant
            i <= n,
            n == items.len(),
            items == vector::slot_items(*preamble),
            position <= i,
            position == insert_position(items.take(i as int), grammar.preamble@, target as int),
        decreases n - i,
    {
        proof {
            assert(items.take(i + 1).drop_last() == items.take(i as int));
            assert(items.take(i + 1).last() == items[i as int]);
        }
        if find_grammar_slot(grammar, slot_at(preamble, i).name.as_str()) < target {
            position = i + 1;
        }
        i += 1;
    }
    proof {
        assert(items.take(n as int) == items);
    }
    position
}

/// The document with a slot that holds the one element that a value writes, or
/// the message that says why there is none. A slot that the document does not
/// have is put in its place in the order of the grammar; a grammar with a body
/// brings a separator.
pub open spec fn with_slot_value(
    doc: DocumentView,
    name: Seq<char>,
    grammar: Grammar,
    value: Seq<char>,
) -> Result<DocumentView, Seq<char>> {
    let slots = grammar.preamble@;
    let target = grammar_index(slots, name);
    if target >= slots.len() {
        Err(unknown_slot(name))
    } else {
        match element_from(slots[target].element, value) {
            Err(message) => Err(message),
            Ok(node) => {
                let filled = SlotView { name, elements: seq![Spanned { node, span: no_span() }] };
                let at = diff::slot_index(doc.preamble, name);
                let preamble = if at < doc.preamble.len() {
                    doc.preamble.update(at, filled)
                } else {
                    doc.preamble.insert(insert_position(doc.preamble, slots, target), filled)
                };
                Ok(
                    DocumentView {
                        preamble,
                        has_separator: doc.has_separator || grammar.body is Some,
                        ..doc
                    },
                )
            },
        }
    }
}

/// Modify a named slot of a document.
///
/// The elements of the slot are replaced by the one element that `new_value`
/// writes. Where the document does not have the slot yet, it is put in its place
/// in the order of the grammar. Where the grammar has a body, the document has a
/// separator afterwards. On an error the document stays as it is.
pub fn modify_slot(doc: &mut Document, slot_name: &str, grammar: &Grammar, new_value: &str) -> (r:
    Result<(), String>)
    requires
        old(doc)@.preamble.len() < usize::MAX,
    ensures
        match r {
            Ok(_) => with_slot_value(old(doc)@, slot_name@, *grammar, new_value@) == Ok::<
                DocumentView,
                Seq<char>,
            >(final(doc)@),
            Err(message) => {
                &&& with_slot_value(old(doc)@, slot_name@, *grammar, new_value@) == Err::<
                    DocumentView,
                    Seq<char>,
                >(message@)
                &&& final(doc)@ == old(doc)@
            },
        },
{
    let ghost first = doc@;
    let target = find_grammar_slot(grammar, slot_name);
    if target == grammar.preamble.len() {
        return Err(unknown_slot_message(slot_name));
    }
    let node = match build_element(&grammar.preamble[target].element, new_value) {
        Ok(node) => node,
        Err(message) => {
            return Err(message);
        },
    };
    let mut elements = no_elements();
    push_element(&mut elements, Spanned { node, span: Span { start: 0, end: 0 } });
    let filled = DocumentSlot { name: grammar.preamble[target].name.clone(), elements };
    proof {
        assert(filled@.elements =~= seq![Spanned { node: node@, span: no_span() }]);
        diff::lemma_slot_index(doc@.preamble, slot_name@);
    }
    let at = find_slot(&doc.preamble, slot_name);
    if at < slot_count(&doc.preamble) {
        set_slot(&mut doc.preamble, at, filled);
    } else {
        let position = find_preamble_insert_position(&doc.preamble, grammar, target);
        insert_slot(&mut doc.preamble, position, filled);
    }
    if grammar.body.is_some() {
        doc.has_separator = true;
    }
    Ok(())
}

/// The text of an element that can be capitalised, if it has one.
pub open spec fn element_words(e: ElementView) -> Option<Seq<char>> {
    match e {
        ElementView::Heading { text, .. } => Some(text),
        ElementView::Paragraph { text } => Some(text),
        ElementView::Link { text, .. } => Some(text),
        ElementView::Image { alt: Some(alt), .. } => Some(alt),
        ElementView::Blockquote { text } => Some(text),
        _ => None,
    }
}

/// The element with another text.
pub open spec fn with_words(e: ElementView, words: Seq<char>) -> ElementView {
    match e {
        ElementView::Heading { level, text } => ElementView::Heading { level, text: words },
        ElementView::Paragraph { text } => ElementView::Paragraph { text: words },
        ElementView::Link { text, href } => ElementView::Link { text: words, href },
        ElementView::Image { alt: Some(_), path } => ElementView::Image { alt: Some(words), path },
        ElementView::Blockquote { text } => ElementView::Blockquote { text: words },
        _ => e,
    }
}

/// The text of an element that can be capitalised, if it has one.
fn words_of_element(element: &ContentElement) -> (r: Option<&str>)
    ensures
        match r {
            Some(s) => element_words(element@) == Some(s@),
            None => element_words(element@) is None,
        },
{
    match element {
        ContentElement::Heading { text, .. } => Some(text.as_str()),
        ContentElement::Paragraph { text } => Some(text.as_str()),
        ContentElement::Link { text, .. } => Some(text.as_str()),
        ContentElement::Image { alt: Some(alt), .. } => Some(alt.as_str()),
        ContentElement::Blockquote { text } => Some(text.as_str()),
        _ => None,
    }
}

/// The element with another text.
fn element_with_words(element: &ContentElement, words: String) -> (r: ContentElement)
    ensures
        r@ == with_words(element@, words@),
{
    match element {
        ContentElement::Heading { level, .. } => ContentElement::Heading {
            level: *level,
            text: words,
        },
        ContentElement::Paragraph { .. } => ContentElement::Paragraph { text: words },
        ContentElement::Link { href, .. } => ContentElement::Link {
            text: words,
            href: href.clone(),
        },
        ContentElement::Image { alt: Some(_), path } => ContentElement::Image {
            alt: Some(words),
            path: path.clone(),
        },
        ContentElement::Blockquote { .. } => ContentElement::Blockquote { text: words },
        _ => element.clone(),
    }
}

/// The capitalised form of a text, where that is another text. `is_upper` says
/// whether its first character is uppercase and `upper` is the uppercase form of
/// that character.
pub open spec fn capitalized_with(words: Seq<char>, is_upper: bool, upper: Seq<char>) -> Option<
    Seq<char>,
> {
    if words.len() == 0 || is_upper || upper == seq![words[0]] {
        None
    } else {
        Some(upper + words.skip(1))
    }
}

/// The capitalised form of a text, where that is another text. `is_upper` says
/// whether its first character is uppercase and `upper` is the uppercase form of
/// that character.
pub fn capitalize_with(words: &str, is_upper: bool, upper: &str) -> (r: Option<String>)
    ensures
        text::opt_text(r) == capitalized_with(words@, is_upper, upper@),
{
    let n = words.unicode_len();
    if n == 0 || is_upper {
        return None;
    }
    if upper.unicode_len() == 1 && upper.get_char(0) == words.get_char(0) {
        proof {
            assert(upper@ =~= seq![words@[0]]);
        }
        return None;
    }
    let mut out = upper.to_owned();
    out.append(words.substring_char(1, n));
    proof {
        assert(words@.subrange(1, n as int) == words@.skip(1));
    }
    Some(out)
}

/// The capitalised form of a text, where that is another text.
pub open spec fn capitalized(words: Seq<char>) -> Option<Seq<char>> {
    if words.len() == 0 {
        None
    } else {
        capitalized_with(words, unicode::is_upper(words[0]), unicode::upper_of(words[0]))
    }
}

/// The capitalised form of a text, where that is another text.
pub fn capitalize_text(words: &str) -> (r: Option<String>)
    ensures
        text::opt_text(r) == capitalized(words@),
{
    if words.is_empty() {
        return None;
    }
    let c = words.get_char(0);
    capitalize_with(words, c.is_uppercase(), to_uppercase(c).as_str())
}

/// The slot with its first element capitalised, where that changes it.
pub open spec fn capitalized_slot(slot: SlotView) -> Option<SlotView> {
    if slot.elements.len() == 0 {
        None
    } else {
        let first = slot.elements[0];
        match element_words(first.node) {
            None => None,
            Some(words) => match capitalized(words) {
                None => None,
                Some(upper) => Some(
                    SlotView {
                        name: slot.name,
                        elements: slot.elements.update(
                            0,
                            Spanned { node: with_words(first.node, upper), span: first.span },
                        ),
                    },
                ),
            },
        }
    }
}

/// The document with the first element of a slot capitalised, where that
/// changes it.
pub open spec fn with_capital(doc: DocumentView, name: Seq<char>) -> Option<DocumentView> {
    let at = diff::slot_index(doc.preamble, name);
    if at >= doc.preamble.len() {
        None
    } else {
        match capitalized_slot(doc.preamble[at]) {
            None => None,
            Some(slot) => Some(DocumentView { preamble: doc.preamble.update(at, slot), ..doc }),
        }
    }
}

/// Capitalize the first character of the text in a named slot.
///
/// It says whether it changed anything: nothing changes where the document does
/// not have the slot, or its first element has no text, an empty one, or one
/// that is capitalised. It is an error if the grammar does not have the slot.
pub fn capitalize_slot(doc: &mut Document, slot_name: &str, grammar: &Grammar) -> (r: Result<
    bool,
    String,
>)
    ensures
        match r {
            Ok(changed) => {
                &&& grammar_index(grammar.preamble@, slot_name@) < grammar.preamble@.len()
                &&& changed == (with_capital(old(doc)@, slot_name@) is Some)
                &&& changed ==> with_capital(old(doc)@, slot_name@) == Some(final(doc)@)
                &&& !changed ==> final(doc)@ == old(doc)@
            },
            Err(message) => {
                &&& grammar_index(grammar.preamble@, slot_name@) == grammar.preamble@.len()
                &&& message@ == unknown_slot(slot_name@)
                &&& final(doc)@ == old(doc)@
            },
        },
{
    if find_grammar_slot(grammar, slot_name) == grammar.preamble.len() {
        return Err(unknown_slot_message(slot_name));
    }
    proof {
        diff::lemma_slot_index(doc@.preamble, slot_name@);
    }
    let at = find_slot(&doc.preamble, slot_name);
    if at == slot_count(&doc.preamble) {
        return Ok(false);
    }
    let slot = slot_at(&doc.preamble, at);
    if element_count(&slot.elements) == 0 {
        return Ok(false);
    }
    let first = element_at(&slot.elements, 0);
    let words = match words_of_element(&first.node) {
        Some(words) => words,
        None => {
            return Ok(false);
        },
    };
    match capitalize_text(words) {
        None => Ok(false),
        Some(upper) => {
            let element = Spanned { node: element_with_words(&first.node, upper), span: first.span };
            let mut elements = clone_elements(&slot.elements);
            set_element(&mut elements, 0, element);
            let changed = DocumentSlot { name: slot.name.clone(), elements };
            set_slot(&mut doc.preamble, at, changed);
            Ok(true)
        },
    }
}

/// Where a slot counts as changed by capitalising it, its document is another one
/// afterwards.
pub proof fn law_capitalised_document_is_another(doc: DocumentView, name: Seq<char>)
    ensures
        with_capital(doc, name) != Some(doc),
{
    if with_capital(doc, name) is Some {
        let at = diff::slot_index(doc.preamble, name);
        diff::lemma_slot_index(doc.preamble, name);
        let slot = doc.preamble[at];
        let first = slot.elements[0];
        let words = element_words(first.node)->0;
        let upper = unicode::upper_of(words[0]);
        let changed = upper + words.skip(1);
        if changed == words {
            assert(changed.len() == upper.len() + words.len() - 1);
            assert(upper =~= seq![words[0]]) by {
                assert(changed[0] == upper[0]);
            }
        }
        let after = with_capital(doc, name)->0;
        assert(after.preamble[at].elements[0].node == with_words(first.node, changed));
        assert(element_words(with_words(first.node, changed)) == Some(changed));
    }
}

/// The elements of the first slot with the given name, if there is one.
pub open spec fn slot_elements(preamble: Seq<SlotView>, name: Seq<char>) -> Option<
    Seq<Spanned<ElementView>>,
> {
    let at = diff::slot_index(preamble, name);
    if at < preamble.len() {
        Some(preamble[at].elements)
    } else {
        None
    }
}

/// Whether slots stand in the order of a grammar, none of them twice.
pub open spec fn in_grammar_order(preamble: Seq<SlotView>, slots: Seq<Slot>) -> bool {
    forall|i: int, j: int|
        0 <= i < j < preamble.len() ==> grammar_index(slots, (#[trigger] preamble[i]).name)
            < grammar_index(slots, (#[trigger] preamble[j]).name)
}

/// A slot that a grammar has stands where its index says.
proof fn lemma_grammar_index_names(slots: Seq<Slot>, name: Seq<char>)
    ensures
        0 <= grammar_index(slots, name) <= slots.len(),
        grammar_index(slots, name) < slots.len() ==> slots[grammar_index(slots, name)].name@
            == name,
    decreases slots.len(),
{
    if slots.len() > 0 && slots[0].name@ != name {
        lemma_grammar_index_names(slots.skip(1), name);
    }
}

/// What stands before the position of a new slot, and behind it, where the slots
/// stand in the order of the grammar.
proof fn lemma_insert_position(preamble: Seq<SlotView>, slots: Seq<Slot>, target: int)
    ensures
        0 <= insert_position(preamble, slots, target) <= preamble.len(),
        forall|k: int|
            insert_position(preamble, slots, target) <= k < preamble.len() ==> grammar_index(
                slots,
                (#[trigger] preamble[k]).name,
            ) >= target,
        insert_position(preamble, slots, target) > 0 ==> grammar_index(
            slots,
            preamble[insert_position(preamble, slots, target) - 1].name,
        ) < target,
    decreases preamble.len(),
{
    if preamble.len() > 0 && grammar_index(slots, preamble.last().name) >= target {
        lemma_insert_position(preamble.drop_last(), slots, target);
        assert forall|k: int|
            insert_position(preamble, slots, target) <= k < preamble.len() implies grammar_index(
            slots,
            (#[trigger] preamble[k]).name,
        ) >= target by {
            if k < preamble.len() - 1 {
                assert(preamble.drop_last()[k] == preamble[k]);
            }
        }
    }
}

/// A slot that was given a value holds the one element that the value writes.
pub proof fn law_modified_slot_reads_back(
    doc: DocumentView,
    name: Seq<char>,
    grammar: Grammar,
    value: Seq<char>,
)
    requires
        with_slot_value(doc, name, grammar, value) is Ok,
    ensures
        ({
            let kind = grammar.preamble@[grammar_index(grammar.preamble@, name)].element;
            let after = with_slot_value(doc, name, grammar, value)->Ok_0;
            slot_elements(after.preamble, name) == Some(
                seq![Spanned { node: element_from(kind, value)->Ok_0, span: no_span() }],
            )
        }),
{
    let slots = grammar.preamble@;
    let target = grammar_index(slots, name);
    let after = with_slot_value(doc, name, grammar, value)->Ok_0;
    let at = diff::slot_index(doc.preamble, name);
    diff::lemma_slot_index(doc.preamble, name);
    if at < doc.preamble.len() {
        diff::lemma_slot_index_is(after.preamble, name, at);
    } else {
        let p = insert_position(doc.preamble, slots, target);
        lemma_insert_position(doc.preamble, slots, target);
        assert forall|k: int| 0 <= k < p implies (#[trigger] after.preamble[k]).name != name by {
            assert(after.preamble[k] == doc.preamble[k]);
        }
        diff::lemma_slot_index_is(after.preamble, name, p);
    }
}

/// To give one slot a value leaves the other slots and the body as they are.
pub proof fn law_modified_slot_keeps_others(
    doc: DocumentView,
    name: Seq<char>,
    grammar: Grammar,
    value: Seq<char>,
    other: Seq<char>,
)
    requires
        with_slot_value(doc, name, grammar, value) is Ok,
        other != name,
    ensures
        ({
            let after = with_slot_value(doc, name, grammar, value)->Ok_0;
            &&& slot_elements(after.preamble, other) == slot_elements(doc.preamble, other)
            &&& after.body == doc.body
        }),
{
    let slots = grammar.preamble@;
    let target = grammar_index(slots, name);
    let before = doc.preamble;
    let after = with_slot_value(doc, name, grammar, value)->Ok_0.preamble;
    let at = diff::slot_index(before, name);
    let there = diff::slot_index(before, other);
    diff::lemma_slot_index(before, name);
    diff::lemma_slot_index(before, other);
    if at < before.len() {
        assert forall|k: int| 0 <= k < there implies (#[trigger] after[k]).name != other by {
            if k != at {
                assert(after[k] == before[k]);
            }
        }
        diff::lemma_slot_index_is(after, other, there);
    } else {
        let p = insert_position(before, slots, target);
        lemma_insert_position(before, slots, target);
        let now: int = if there < p {
            there
        } else {
            there + 1
        };
        assert forall|k: int| 0 <= k < now implies (#[trigger] after[k]).name != other by {
            if k < p {
                assert(after[k] == before[k]);
            } else if k > p {
                assert(after[k] == before[k - 1]);
            }
        }
        diff::lemma_slot_index_is(after, other, now);
    }
}

/// Slots that stand in the order of the grammar do so after one of them was given a
/// value, whether the document had it already or not.
pub proof fn law_modified_slots_keep_grammar_order(
    doc: DocumentView,
    name: Seq<char>,
    grammar: Grammar,
    value: Seq<char>,
)
    requires
        with_slot_value(doc, name, grammar, value) is Ok,
        in_grammar_order(doc.preamble, grammar.preamble@),
    ensures
        in_grammar_order(
            with_slot_value(doc, name, grammar, value)->Ok_0.preamble,
            grammar.preamble@,
        ),
{
    let slots = grammar.preamble@;
    let target = grammar_index(slots, name);
    let before = doc.preamble;
    let after = with_slot_value(doc, name, grammar, value)->Ok_0.preamble;
    let at = diff::slot_index(before, name);
    diff::lemma_slot_index(before, name);
    lemma_grammar_index_names(slots, name);
    if at < before.len() {
        assert forall|i: int, j: int| 0 <= i < j < after.len() implies grammar_index(
            slots,
            (#[trigger] after[i]).name,
        ) < grammar_index(slots, (#[trigger] after[j]).name) by {
            assert(after[i].name == before[i].name);
            assert(after[j].name == before[j].name);
        }
    } else {
        let p = insert_position(before, slots, target);
        lemma_insert_position(before, slots, target);
        assert forall|k: int| p <= k < before.len() implies grammar_index(
            slots,
            (#[trigger] before[k]).name,
        ) > target by {
            lemma_grammar_index_names(slots, before[k].name);
        }
        assert forall|i: int, j: int| 0 <= i < j < after.len() implies grammar_index(
            slots,
            (#[trigger] after[i]).name,
        ) < grammar_index(slots, (#[trigger] after[j]).name) by {
            let a = if i < p {
                i
            } else {
                i - 1
            };
            let b = if j < p {
                j
            } else {
                j - 1
            };
            if i != p {
                assert(after[i] == before[a]);
            }
            if j != p {
                assert(after[j] == before[b]);
            }
            if j == p {
                assert(grammar_index(slots, before[p - 1].name) < target);
                if i < p - 1 {
                    assert(grammar_index(slots, before[i].name) < grammar_index(
                        slots,
                        before[p - 1].name,
                    ));
                }
            }
        }
    }
}

/// Whether the first slot with the given name holds just the given elements.
pub open spec fn slot_holds(
    preamble: Seq<SlotView>,
    name: Seq<char>,
    elements: Seq<Spanned<ElementView>>,
) -> bool {
    exists|i: int|
        {
            &&& 0 <= i < preamble.len()
            &&& (#[trigger] preamble[i]).name == name
            &&& preamble[i].elements == elements
            &&& forall|j: int| 0 <= j < i ==> (#[trigger] preamble[j]).name != name
        }
}

/// Whether slot number `k` is the first of a grammar with the given name.
pub open spec fn is_first_named(slots: Seq<Slot>, name: Seq<char>, k: int) -> bool {
    &&& 0 <= k < slots.len()
    &&& slots[k].name@ == name
    &&& forall|j: int| 0 <= j < k ==> (#[trigger] slots[j]).name@ != name
}

/// Whether a document is what an edit of one slot leaves: the slot holds just `node`,
/// the other slots and the body are as they were, and there is a separator where there
/// was one or the grammar has a body.
pub open spec fn is_edited(
    before: DocumentView,
    after: DocumentView,
    name: Seq<char>,
    grammar: Grammar,
    node: ElementView,
) -> bool {
    &&& slot_holds(after.preamble, name, seq![Spanned { node, span: Span { start: 0, end: 0 } }])
    &&& after.body == before.body
    &&& after.separator_span == before.separator_span
    &&& after.has_separator <==> before.has_separator || grammar.body is Some
    &&& exists|i: int|
        {
            &&& 0 <= i < after.preamble.len()
            &&& (#[trigger] after.preamble[i]).name == name
            &&& if after.preamble.len() == before.preamble.len() {
                before.preamble[i].name == name && before.preamble == after.preamble.update(
                    i,
                    before.preamble[i],
                )
            } else {
                before.preamble == after.preamble.remove(i) && forall|j: int|
                    0 <= j < before.preamble.len() ==> (#[trigger] before.preamble[j]).name != name
            }
        }
}

/// A value that writes an element gives the slot that element.
proof fn lemma_value_is_written(
    doc: DocumentView,
    name: Seq<char>,
    grammar: Grammar,
    k: int,
    value: Seq<char>,
    node: ElementView,
)
    requires
        is_first_named(grammar.preamble@, name, k),
        element_from(grammar.preamble@[k].element, value) == Ok::<ElementView, Seq<char>>(node),
    ensures
        with_slot_value(doc, name, grammar, value) is Ok,
        is_edited(doc, with_slot_value(doc, name, grammar, value)->Ok_0, name, grammar, node),
{
    let slots = grammar.preamble@;
    lemma_grammar_index_is(slots, name, k);
    let after = with_slot_value(doc, name, grammar, value)->Ok_0;
    let at = diff::slot_index(doc.preamble, name);
    diff::lemma_slot_index(doc.preamble, name);
    let elements = seq![Spanned { node, span: Span { start: 0, end: 0 } }];
    if at < doc.preamble.len() {
        assert(after.preamble[at].name == name && after.preamble[at].elements == elements);
        assert forall|j: int| 0 <= j < at implies (#[trigger] after.preamble[j]).name != name by {
            assert(after.preamble[j] == doc.preamble[j]);
        }
        assert(after.preamble.update(at, doc.preamble[at]) =~= doc.preamble);
    } else {
        let p = insert_position(doc.preamble, slots, k);
        lemma_insert_position(doc.preamble, slots, k);
        assert(after.preamble[p].name == name && after.preamble[p].elements == elements);
        assert forall|j: int| 0 <= j < p implies (#[trigger] after.preamble[j]).name != name by {
            assert(after.preamble[j] == doc.preamble[j]);
        }
        assert(after.preamble.remove(p) =~= doc.preamble);
    }
}

/// To give an image slot the text `a` and the path `p` leaves it with the one image
/// whose text is `a` and whose path is `p`.
pub proof fn law_image_slot_gets_text_and_path(
    doc: DocumentView,
    name: Seq<char>,
    grammar: Grammar,
    k: int,
    a: Seq<char>,
    p: Seq<char>,
)
    requires
        is_first_named(grammar.preamble@, name, k),
        grammar.preamble@[k].element is Image,
        !a.contains('|'),
    ensures
        with_slot_value(doc, name, grammar, a + seq!['|'] + p) is Ok,
        is_edited(
            doc,
            with_slot_value(doc, name, grammar, a + seq!['|'] + p)->Ok_0,
            name,
            grammar,
            ElementView::Image { alt: Some(a), path: p },
        ),
{
    let value = a + seq!['|'] + p;
    lemma_bar(a, p);
    lemma_value_is_written(
        doc,
        name,
        grammar,
        k,
        value,
        ElementView::Image { alt: Some(a), path: p },
    );
}

/// To give a link slot the text `a` and the destination `p` leaves it with the one link
/// whose text is `a` and whose destination is `p`.
pub proof fn law_link_slot_gets_text_and_destination(
    doc: DocumentView,
    name: Seq<char>,
    grammar: Grammar,
    k: int,
    a: Seq<char>,
    p: Seq<char>,
)
    requires
        is_first_named(grammar.preamble@, name, k),
        grammar.preamble@[k].element is Link,
        !a.contains('|'),
    ensures
        with_slot_value(doc, name, grammar, a + seq!['|'] + p) is Ok,
        is_edited(
            doc,
            with_slot_value(doc, name, grammar, a + seq!['|'] + p)->Ok_0,
            name,
            grammar,
            ElementView::Link { text: a, href: p },
        ),
{
    let value = a + seq!['|'] + p;
    lemma_bar(a, p);
    lemma_value_is_written(doc, name, grammar, k, value, ElementView::Link { text: a, href: p });
}

/// The parts on both sides of the first bar.
proof fn lemma_bar(a: Seq<char>, p: Seq<char>)
    requires
        !a.contains('|'),
    ensures
        text::first_index(a + seq!['|'] + p, '|') == a.len(),
        (a + seq!['|'] + p).take(a.len() as int) == a,
        (a + seq!['|'] + p).skip(a.len() as int + 1) == p,
{
    let value = a + seq!['|'] + p;
    assert forall|j: int| 0 <= j < a.len() implies value[j] != '|' by {
        assert(a.contains(a[j]));
    }
    assert(value[a.len() as int] == '|');
    text::lemma_first_index_is(value, '|', a.len() as int);
    assert(value.take(a.len() as int) =~= a);
    assert(value.skip(a.len() as int + 1) =~= p);
}

/// To give a heading slot a value leaves it with the one heading of the slot's first
/// level that has the value as its text, a paragraph slot with that paragraph and a
/// list slot with that list.
pub proof fn law_text_slot_gets_its_text(
    doc: DocumentView,
    name: Seq<char>,
    grammar: Grammar,
    k: int,
    value: Seq<char>,
)
    requires
        is_first_named(grammar.preamble@, name, k),
    ensures
        grammar.preamble@[k].element is Heading || grammar.preamble@[k].element is Paragraph
            || grammar.preamble@[k].element is List ==> with_slot_value(doc, name, grammar, value)
            is Ok,
        grammar.preamble@[k].element matches Element::Heading { level } ==> is_edited(
            doc,
            with_slot_value(doc, name, grammar, value)->Ok_0,
            name,
            grammar,
            ElementView::Heading { level: level.min@, text: value },
        ),
        grammar.preamble@[k].element is Paragraph ==> is_edited(
            doc,
            with_slot_value(doc, name, grammar, value)->Ok_0,
            name,
            grammar,
            ElementView::Paragraph { text: value },
        ),
        grammar.preamble@[k].element is List ==> is_edited(
            doc,
            with_slot_value(doc, name, grammar, value)->Ok_0,
            name,
            grammar,
            ElementView::List { source: value },
        ),
{
    match grammar.preamble@[k].element {
        Element::Heading { level } => {
            lemma_value_is_written(
                doc,
                name,
                grammar,
                k,
                value,
                ElementView::Heading { level: level.min@, text: value },
            );
        },
        Element::Paragraph => {
            lemma_value_is_written(
                doc,
                name,
                grammar,
                k,
                value,
                ElementView::Paragraph { text: value },
            );
        },
        Element::List => {
            lemma_value_is_written(
                doc,
                name,
                grammar,
                k,
                value,
                ElementView::List { source: value },
            );
        },
        _ => {},
    }
}

/// An edit is refused if and only if the grammar does not have the slot, or the slot
/// holds links or images and the value has no bar.
pub proof fn law_refused_edits(
    doc: DocumentView,
    name: Seq<char>,
    grammar: Grammar,
    value: Seq<char>,
)
    ensures
        (forall|k: int|
            0 <= k < grammar.preamble@.len() ==> (#[trigger] grammar.preamble@[k]).name@ != name)
            ==> with_slot_value(doc, name, grammar, value) == Err::<DocumentView, Seq<char>>(
            "slot '"@ + name + "' not found in grammar"@,
        ),
        forall|k: int| #[trigger]
            is_first_named(grammar.preamble@, name, k) ==> (with_slot_value(
                doc,
                name,
                grammar,
                value,
            ) is Err <==> (grammar.preamble@[k].element is Link || grammar.preamble@[k].element
                is Image) && !value.contains('|')),
{
    let slots = grammar.preamble@;
    if forall|k: int| 0 <= k < slots.len() ==> (#[trigger] slots[k]).name@ != name {
        lemma_grammar_index_is(slots, name, slots.len() as int);
    }
    assert forall|k: int| #[trigger] is_first_named(slots, name, k) implies (with_slot_value(
        doc,
        name,
        grammar,
        value,
    ) is Err <==> (slots[k].element is Link || slots[k].element is Image) && !value.contains(
        '|',
    )) by {
        lemma_grammar_index_is(slots, name, k);
        if value.contains('|') {
            text::lemma_first_index(value, '|');
        } else {
            assert forall|j: int| 0 <= j < value.len() implies value[j] != '|' by {
                assert(value.contains(value[j]));
            }
            text::lemma_first_index_is(value, '|', value.len() as int);
        }
    }
}

/// Whether slot number `i` is the first of a document with the given name and begins
/// with the given element.
pub open spec fn slot_begins(
    preamble: Seq<SlotView>,
    name: Seq<char>,
    i: int,
    node: ElementView,
) -> bool {
    &&& 0 <= i < preamble.len()
    &&& preamble[i].name == name
    &&& forall|j: int| 0 <= j < i ==> (#[trigger] preamble[j]).name != name
    &&& preamble[i].elements.len() > 0
    &&& preamble[i].elements[0].node == node
}

/// The document with another element at the start of slot number `i`.
pub open spec fn with_start(doc: DocumentView, i: int, node: ElementView) -> DocumentView {
    DocumentView {
        preamble: doc.preamble.update(
            i,
            SlotView {
                name: doc.preamble[i].name,
                elements: doc.preamble[i].elements.update(
                    0,
                    Spanned { node, span: doc.preamble[i].elements[0].span },
                ),
            },
        ),
        ..doc
    }
}

/// To capitalise a slot puts the uppercase form of the first character in place of that
/// character, in the text of the slot's first element, and changes nothing else.
pub proof fn law_capital_replaces_the_first_character(
    doc: DocumentView,
    name: Seq<char>,
    i: int,
    c: char,
    rest: Seq<char>,
    upper: Seq<char>,
    level: u8,
    other: Seq<char>,
)
    requires
        upper == unicode::upper_of(c),
        !unicode::is_upper(c),
        upper != seq![c],
    ensures
        slot_begins(doc.preamble, name, i, ElementView::Heading { level, text: seq![c] + rest })
            ==> with_capital(doc, name) == Some(
            with_start(doc, i, ElementView::Heading { level, text: upper + rest }),
        ),
        slot_begins(doc.preamble, name, i, ElementView::Paragraph { text: seq![c] + rest })
            ==> with_capital(doc, name) == Some(
            with_start(doc, i, ElementView::Paragraph { text: upper + rest }),
        ),
        slot_begins(doc.preamble, name, i, ElementView::Blockquote { text: seq![c] + rest })
            ==> with_capital(doc, name) == Some(
            with_start(doc, i, ElementView::Blockquote { text: upper + rest }),
        ),
        slot_begins(
            doc.preamble,
            name,
            i,
            ElementView::Link { text: seq![c] + rest, href: other },
        ) ==> with_capital(doc, name) == Some(
            with_start(doc, i, ElementView::Link { text: upper + rest, href: other }),
        ),
        slot_begins(
            doc.preamble,
            name,
            i,
            ElementView::Image { alt: Some(seq![c] + rest), path: other },
        ) ==> with_capital(doc, name) == Some(
            with_start(doc, i, ElementView::Image { alt: Some(upper + rest), path: other }),
        ),
{
    let words = seq![c] + rest;
    assert(words.skip(1) =~= rest);
    assert(words[0] == c);
    if 0 <= i < doc.preamble.len() && doc.preamble[i].name == name && forall|j: int|
        0 <= j < i ==> (#[trigger] doc.preamble[j]).name != name {
        diff::lemma_slot_index_is(doc.preamble, name, i);
    }
}

/// To capitalise a slot changes nothing where its first element has no text, an empty
/// one or one that begins with an uppercase character, where it has no elements, and
/// where the document does not have it.
pub proof fn law_capital_stays(doc: DocumentView, name: Seq<char>, i: int, node: ElementView)
    ensures
        (forall|j: int| 0 <= j < doc.preamble.len() ==> (#[trigger] doc.preamble[j]).name != name)
            ==> with_capital(doc, name) is None,
        slot_holds(doc.preamble, name, seq![]) ==> with_capital(doc, name) is None,
        slot_begins(doc.preamble, name, i, node) && match node {
            ElementView::Heading { text, .. } => text.len() == 0 || unicode::is_upper(text[0])
                || unicode::upper_of(text[0]) == seq![text[0]],
            ElementView::Paragraph { text } => text.len() == 0 || unicode::is_upper(text[0])
                || unicode::upper_of(text[0]) == seq![text[0]],
            ElementView::Blockquote { text } => text.len() == 0 || unicode::is_upper(text[0])
                || unicode::upper_of(text[0]) == seq![text[0]],
            ElementView::Link { text, .. } => text.len() == 0 || unicode::is_upper(text[0])
                || unicode::upper_of(text[0]) == seq![text[0]],
            ElementView::Image { alt: Some(text), .. } => text.len() == 0 || unicode::is_upper(
                text[0],
            ) || unicode::upper_of(text[0]) == seq![text[0]],
            _ => true,
        } ==> with_capital(doc, name) is None,
{
    let slots = doc.preamble;
    if forall|j: int| 0 <= j < slots.len() ==> (#[trigger] slots[j]).name != name {
        diff::lemma_slot_index_is(slots, name, slots.len() as int);
    }
    if slot_holds(slots, name, seq![]) {
        let h = choose|h: int|
            {
                &&& 0 <= h < slots.len()
                &&& (#[trigger] slots[h]).name == name
                &&& slots[h].elements == Seq::<Spanned<ElementView>>::empty()
                &&& forall|j: int| 0 <= j < h ==> (#[trigger] slots[j]).name != name
            };
        diff::lemma_slot_index_is(slots, name, h);
    }
    if slot_begins(slots, name, i, node) {
        diff::lemma_slot_index_is(slots, name, i);
    }
}

} // verus!
