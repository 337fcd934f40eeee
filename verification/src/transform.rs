//! Transforms: operations on documents whose parameters are bound when they are
//! made.

use std::sync::Arc;

use vstd::prelude::*;

use crate::diff;
use crate::document::{Document, DocumentView, ElementView};
use crate::schema::{Element, Grammar, SlotName};
use crate::slot_editor;
use crate::slot_editor::{capitalize_slot, find_grammar_slot, modify_slot, unknown_slot_message};
use crate::text;
use crate::text::join;

verus! {

/// Why a transform failed, or could not be made.
#[derive(Debug)]
pub enum TransformError {
    SlotNotFound { slot_name: String },
    Failed { reason: String },
}

/// The mathematical counterpart of [`TransformError`].
pub enum TransformErrorView {
    SlotNotFound { slot_name: Seq<char> },
    Failed { reason: Seq<char> },
}

impl View for TransformError {
    type V = TransformErrorView;

    open spec fn view(&self) -> TransformErrorView {
        match self {
            TransformError::SlotNotFound { slot_name } => TransformErrorView::SlotNotFound {
                slot_name: slot_name@,
            },
            TransformError::Failed { reason } => TransformErrorView::Failed { reason: reason@ },
        }
    }
}

impl TransformError {
    /// The error as a line of text.
    pub fn message(&self) -> (r: String)
        ensures
            r@ == (match self@ {
                TransformErrorView::SlotNotFound { slot_name } => slot_editor::unknown_slot(
                    slot_name,
                ),
                TransformErrorView::Failed { reason } => "transform failed: "@ + reason,
            }),
    {
        match self {
            TransformError::SlotNotFound { slot_name } => unknown_slot_message(slot_name.as_str()),
            TransformError::Failed { reason } => {
                let mut out = "transform failed: ".to_owned();
                out.append(reason.as_str());
                out
            },
        }
    }
}

/// The view of the result of a transform.
pub open spec fn result_view(r: Result<Document, TransformError>) -> Result<
    DocumentView,
    TransformErrorView,
> {
    match r {
        Ok(doc) => Ok(doc@),
        Err(e) => Err(e@),
    }
}

/// A content transformation. All parameters are bound at construction time.
pub trait Transform {
    /// What the transform is called.
    spec fn title(&self) -> Seq<char>;

    /// What the transform makes of a document.
    spec fn outcome(&self, doc: DocumentView) -> Result<DocumentView, TransformErrorView>;

    /// How many slots the transform adds at most.
    spec fn added_slots(&self) -> nat;

    /// A description for people: the title of a menu entry or a line in a log.
    fn description(&self) -> (r: String)
        ensures
            r@ == self.title(),
    ;

    /// Apply this transform to a document, returning a new document.
    fn apply(&self, doc: Document) -> (r: Result<Document, TransformError>)
        requires
            doc@.preamble.len() + self.added_slots() <= usize::MAX,
        ensures
            result_view(r) == self.outcome(doc@),
            r matches Ok(after) ==> after@.preamble.len() <= doc@.preamble.len()
                + self.added_slots(),
    ;
}

/// A transform that gives a slot a value.
#[derive(Debug)]
pub struct InsertSlot {
    grammar: Arc<Grammar>,
    slot_name: SlotName,
    value: String,
}

impl InsertSlot {
    /// The grammar that the transform goes by.
    pub closed spec fn grammar(&self) -> Grammar {
        *self.grammar
    }

    /// The name of the slot.
    pub closed spec fn slot(&self) -> Seq<char> {
        self.slot_name@
    }

    /// The value that the slot is given.
    pub closed spec fn value(&self) -> Seq<char> {
        self.value@
    }

    /// The transform that gives the named slot the given value. It is an error
    /// if the grammar does not have the slot.
    pub fn new(grammar: Arc<Grammar>, slot_name: &str, value: String) -> (r: Result<
        Self,
        TransformError,
    >)
        ensures
            match r {
                Ok(t) => {
                    &&& slot_editor::grammar_index(grammar.preamble@, slot_name@)
                        < grammar.preamble@.len()
                    &&& t.grammar() == *grammar
                    &&& t.slot() == slot_name@
                    &&& t.value() == value@
                },
                Err(e) => {
                    &&& slot_editor::grammar_index(grammar.preamble@, slot_name@)
                        == grammar.preamble@.len()
                    &&& e@ == (TransformErrorView::SlotNotFound { slot_name: slot_name@ })
                },
            },
    {
        let at = find_grammar_slot(&grammar, slot_name);
        if at == grammar.preamble.len() {
            return Err(TransformError::SlotNotFound { slot_name: slot_name.to_owned() });
        }
        let name = grammar.preamble[at].name.clone();
        Ok(InsertSlot { grammar, slot_name: name, value })
    }
}

impl Transform for InsertSlot {
    open spec fn title(&self) -> Seq<char> {
        "Insert slot '"@ + self.slot() + "'"@
    }

    open spec fn outcome(&self, doc: DocumentView) -> Result<DocumentView, TransformErrorView> {
        match slot_editor::with_slot_value(doc, self.slot(), self.grammar(), self.value()) {
            Ok(after) => Ok(after),
            Err(reason) => Err(TransformErrorView::Failed { reason }),
        }
    }

    open spec fn added_slots(&self) -> nat {
        1
    }

    fn description(&self) -> (r: String) {
        let mut out = "Insert slot '".to_owned();
        out.append(self.slot_name.as_str());
        out.append("'");
        out
    }

    fn apply(&self, doc: Document) -> (r: Result<Document, TransformError>) {
        let mut doc = doc;
        proof {
            diff::lemma_slot_index(doc@.preamble, self.slot_name@);
            lemma_insert_position(
                doc@.preamble,
                self.grammar.preamble@,
                slot_editor::grammar_index(self.grammar.preamble@, self.slot_name@),
            );
        }
        match modify_slot(&mut doc, self.slot_name.as_str(), &self.grammar, self.value.as_str()) {
            Ok(_) => Ok(doc),
            Err(reason) => Err(TransformError::Failed { reason }),
        }
    }
}

/// A slot is put within the preamble or at its end.
proof fn lemma_insert_position(
    preamble: Seq<crate::document::SlotView>,
    slots: Seq<crate::schema::Slot>,
    target: int,
)
    ensures
        0 <= slot_editor::insert_position(preamble, slots, target) <= preamble.len(),
    decreases preamble.len(),
{
    if preamble.len() > 0 {
        lemma_insert_position(preamble.drop_last(), slots, target);
    }
}

/// A transform that capitalises the text of a slot.
#[derive(Debug)]
pub struct Capitalize {
    grammar: Arc<Grammar>,
    slot_name: SlotName,
}

impl Capitalize {
    /// The grammar that the transform goes by.
    pub closed spec fn grammar(&self) -> Grammar {
        *self.grammar
    }

    /// The name of the slot.
    pub closed spec fn slot(&self) -> Seq<char> {
        self.slot_name@
    }

    /// The transform that capitalises the named slot. It is an error if the
    /// grammar does not have the slot.
    pub fn new(grammar: Arc<Grammar>, slot_name: &str) -> (r: Result<Self, TransformError>)
        ensures
            match r {
                Ok(t) => {
                    &&& slot_editor::grammar_index(grammar.preamble@, slot_name@)
                        < grammar.preamble@.len()
                    &&& t.grammar() == *grammar
                    &&& t.slot() == slot_name@
                },
                Err(e) => {
                    &&& slot_editor::grammar_index(grammar.preamble@, slot_name@)
                        == grammar.preamble@.len()
                    &&& e@ == (TransformErrorView::SlotNotFound { slot_name: slot_name@ })
                },
            },
    {
        let at = find_grammar_slot(&grammar, slot_name);
        if at == grammar.preamble.len() {
            return Err(TransformError::SlotNotFound { slot_name: slot_name.to_owned() });
        }
        let name = grammar.preamble[at].name.clone();
        Ok(Capitalize { grammar, slot_name: name })
    }
}

impl Transform for Capitalize {
    open spec fn title(&self) -> Seq<char> {
        "Capitalize '"@ + self.slot() + "'"@
    }

    open spec fn outcome(&self, doc: DocumentView) -> Result<DocumentView, TransformErrorView> {
        if slot_editor::grammar_index(self.grammar().preamble@, self.slot())
            == self.grammar().preamble@.len() {
            Err(TransformErrorView::Failed { reason: slot_editor::unknown_slot(self.slot()) })
        } else {
            match slot_editor::with_capital(doc, self.slot()) {
                Some(after) => Ok(after),
                None => Ok(doc),
            }
        }
    }

    open spec fn added_slots(&self) -> nat {
        0
    }

    fn description(&self) -> (r: String) {
        let mut out = "Capitalize '".to_owned();
        out.append(self.slot_name.as_str());
        out.append("'");
        out
    }

    fn apply(&self, doc: Document) -> (r: Result<Document, TransformError>) {
        let mut doc = doc;
        proof {
            diff::lemma_slot_index(doc@.preamble, self.slot_name@);
        }
        match capitalize_slot(&mut doc, self.slot_name.as_str(), &self.grammar) {
            Ok(_) => Ok(doc),
            Err(reason) => Err(TransformError::Failed { reason }),
        }
    }
}

/// A transform that gives a document a separator.
#[derive(Debug, Clone, Copy)]
pub struct InsertSeparator;

impl Transform for InsertSeparator {
    open spec fn title(&self) -> Seq<char> {
        "Insert separator"@
    }

    open spec fn outcome(&self, doc: DocumentView) -> Result<DocumentView, TransformErrorView> {
        Ok(DocumentView { has_separator: true, ..doc })
    }

    open spec fn added_slots(&self) -> nat {
        0
    }

    fn description(&self) -> (r: String) {
        "Insert separator".to_owned()
    }

    fn apply(&self, doc: Document) -> (r: Result<Document, TransformError>) {
        let mut doc = doc;
        doc.has_separator = true;
        Ok(doc)
    }
}

/// A transform that applies others, one behind the other.
pub struct CompositeTransform {
    transforms: Vec<Box<dyn Transform>>,
}

/// What the given transforms make of a document, one behind the other. The
/// first failure ends it.
pub open spec fn outcome_of_all(transforms: Seq<Box<dyn Transform>>, doc: DocumentView) -> Result<
    DocumentView,
    TransformErrorView,
>
    decreases transforms.len(),
{
    if transforms.len() == 0 {
        Ok(doc)
    } else {
        match outcome_of_all(transforms.drop_last(), doc) {
            Ok(between) => transforms.last().outcome(between),
            Err(e) => Err(e),
        }
    }
}

/// How many slots the given transforms add at most.
pub open spec fn added_by_all(transforms: Seq<Box<dyn Transform>>) -> nat
    decreases transforms.len(),
{
    if transforms.len() == 0 {
        0
    } else {
        added_by_all(transforms.drop_last()) + transforms.last().added_slots()
    }
}

/// The titles of the given transforms.
pub open spec fn titles_of(transforms: Seq<Box<dyn Transform>>) -> Seq<Seq<char>> {
    transforms.map_values(|t: Box<dyn Transform>| t.title())
}

/// A failure of the first transforms is the failure of all of them.
proof fn lemma_outcome_fails(transforms: Seq<Box<dyn Transform>>, doc: DocumentView, k: int)
    requires
        0 <= k <= transforms.len(),
        outcome_of_all(transforms.take(k), doc) is Err,
    ensures
        outcome_of_all(transforms, doc) == outcome_of_all(transforms.take(k), doc),
    decreases transforms.len(),
{
    if k == transforms.len() {
        assert(transforms.take(k) == transforms);
    } else {
        assert(transforms.drop_last().take(k) == transforms.take(k));
        lemma_outcome_fails(transforms.drop_last(), doc, k);
    }
}

/// The first transforms add no more slots than all of them.
proof fn lemma_added_grows(transforms: Seq<Box<dyn Transform>>, k: int)
    requires
        0 <= k <= transforms.len(),
    ensures
        added_by_all(transforms.take(k)) <= added_by_all(transforms),
    decreases transforms.len(),
{
    if k == transforms.len() {
        assert(transforms.take(k) == transforms);
    } else {
        assert(transforms.drop_last().take(k) == transforms.take(k));
        lemma_added_grows(transforms.drop_last(), k);
    }
}

impl CompositeTransform {
    /// The transforms, in the order in which they are applied.
    pub closed spec fn parts(&self) -> Seq<Box<dyn Transform>> {
        self.transforms@
    }

    /// The transform that applies the given ones, one behind the other.
    pub fn new(transforms: Vec<Box<dyn Transform>>) -> (r: Self)
        ensures
            r.parts() == transforms@,
    {
        CompositeTransform { transforms }
    }
}

impl Transform for CompositeTransform {
    open spec fn title(&self) -> Seq<char> {
        text::joined(titles_of(self.parts()), " + "@)
    }

    open spec fn outcome(&self, doc: DocumentView) -> Result<DocumentView, TransformErrorView> {
        outcome_of_all(self.parts(), doc)
    }

    open spec fn added_slots(&self) -> nat {
        added_by_all(self.parts())
    }

    fn description(&self) -> (r: String) {
        let mut titles: Vec<String> = Vec::new();
        let mut i: usize = 0;
        while i < self.transforms.len()
            invariant
                i <= self.transforms.len(),
                titles.len() == i,
                forall|k: int| 0 <= k < i ==> (#[trigger] titles@[k])@ == self.transforms@[k].title(),
            decreases self.transforms.len() - i,
        {
            titles.push(self.transforms[i].description());
            i += 1;
        }
        proof {
            assert(text::texts(titles@) =~= titles_of(self.transforms@));
        }
        join(&titles, " + ")
    }

    fn apply(&self, doc: Document) -> (r: Result<Document, TransformError>) {
        let ghost first = doc@;
        let ghost all = self.transforms@;
        let mut current = doc;
        let mut i: usize = 0;
        proof {
            assert(all.take(0) =~= seq![]);
        }
        while i < self.transforms.len()
            invariant
                i <= self.transforms.len(),
                all == self.transforms@,
                first.preamble.len() + added_by_all(all) <= usize::MAX,
                current@.preamble.len() <= first.preamble.len() + added_by_all(all.take(i as int)),
                outcome_of_all(all.take(i as int), first) == Ok::<DocumentView, TransformErrorView>(
                    current@,
                ),
                first == doc@,
            decreases self.transforms.len() - i,
        {
            proof {
                assert(all.take(i + 1).drop_last() == all.take(i as int));
                assert(all.take(i + 1).last() == all[i as int]);
                lemma_added_grows(all, i + 1);
            }
            match self.transforms[i].apply(current) {
                Ok(after) => {
                    current = after;
                },
                Err(e) => {
                    proof {
                        lemma_outcome_fails(all, first, i + 1);
                    }
                    return Err(e);
                },
            }
            i += 1;
        }
        proof {
            assert(all.take(i as int) == all);
        }
        Ok(current)
    }
}

/// The composition of no transforms leaves a document as it is.
pub proof fn law_empty_composition_is_identity(t: CompositeTransform, doc: DocumentView)
    requires
        t.parts().len() == 0,
    ensures
        t.outcome(doc) == Ok::<DocumentView, TransformErrorView>(doc),
{
}

/// Giving a document a separator twice is giving it one once.
pub proof fn law_insert_separator_is_idempotent(t: InsertSeparator, doc: DocumentView)
    ensures
        ({
            let once = t.outcome(doc)->Ok_0;
            t.outcome(doc) is Ok && t.outcome(once) == Ok::<DocumentView, TransformErrorView>(once)
        }),
{
}

/// To compose transforms is to apply them one behind the other: those at the end get
/// what those at the start make, and get nothing where these fail.
pub proof fn law_composition_goes_in_order(
    a: Seq<Box<dyn Transform>>,
    b: Seq<Box<dyn Transform>>,
    doc: DocumentView,
)
    ensures
        outcome_of_all(a + b, doc) == match outcome_of_all(a, doc) {
            Ok(between) => outcome_of_all(b, between),
            Err(e) => Err(e),
        },
    decreases b.len(),
{
    if b.len() == 0 {
        assert(a + b =~= a);
    } else {
        law_composition_goes_in_order(a, b.drop_last(), doc);
        assert((a + b).drop_last() =~= a + b.drop_last());
        assert((a + b).last() == b.last());
    }
}

/// The composition of a single transform is that transform.
pub proof fn law_composition_of_one(t: CompositeTransform, doc: DocumentView)
    requires
        t.parts().len() == 1,
    ensures
        t.outcome(doc) == t.parts()[0].outcome(doc),
        t.title() == t.parts()[0].title(),
{
    let parts = t.parts();
    assert(parts.drop_last() =~= seq![]);
    assert(outcome_of_all(parts.drop_last(), doc) == Ok::<DocumentView, TransformErrorView>(doc));
    assert(titles_of(parts) =~= seq![parts[0].title()]);
}

/// A document that was given a separator has one, and is otherwise as it was.
pub proof fn law_inserted_separator_is_there(t: InsertSeparator, doc: DocumentView)
    ensures
        t.outcome(doc) is Ok,
        t.outcome(doc)->Ok_0.has_separator,
        t.outcome(doc)->Ok_0.preamble == doc.preamble,
        t.outcome(doc)->Ok_0.body == doc.body,
        t.outcome(doc)->Ok_0.separator_span == doc.separator_span,
{
}

/// A transform that gives an image slot a value leaves it with the image of that text
/// and path; one for a link slot, with the link of that text and destination.
pub proof fn law_inserted_slot_has_its_value(
    t: InsertSlot,
    doc: DocumentView,
    k: int,
    a: Seq<char>,
    p: Seq<char>,
)
    requires
        slot_editor::is_first_named(t.grammar().preamble@, t.slot(), k),
        t.value() == a + seq!['|'] + p,
        !a.contains('|'),
    ensures
        t.outcome(doc) is Ok,
        t.grammar().preamble@[k].element is Image ==> slot_editor::is_edited(
            doc,
            t.outcome(doc)->Ok_0,
            t.slot(),
            t.grammar(),
            ElementView::Image { alt: Some(a), path: p },
        ),
        t.grammar().preamble@[k].element is Link ==> slot_editor::is_edited(
            doc,
            t.outcome(doc)->Ok_0,
            t.slot(),
            t.grammar(),
            ElementView::Link { text: a, href: p },
        ),
        t.grammar().preamble@[k].element is Paragraph ==> slot_editor::is_edited(
            doc,
            t.outcome(doc)->Ok_0,
            t.slot(),
            t.grammar(),
            ElementView::Paragraph { text: t.value() },
        ),
{
    slot_editor::law_text_slot_gets_its_text(doc, t.slot(), t.grammar(), k, t.value());
    match t.grammar().preamble@[k].element {
        Element::Image { .. } => {
            slot_editor::law_image_slot_gets_text_and_path(doc, t.slot(), t.grammar(), k, a, p);
        },
        Element::Link { .. } => {
            slot_editor::law_link_slot_gets_text_and_destination(
                doc,
                t.slot(),
                t.grammar(),
                k,
                a,
                p,
            );
        },
        _ => {},
    }
}

/// A transform that capitalises a slot fails only where the grammar does not have the
/// slot, and otherwise gives the capitalised document or leaves it as it is.
pub proof fn law_capitalised_slot_has_a_capital(t: Capitalize, doc: DocumentView, k: int)
    requires
        slot_editor::is_first_named(t.grammar().preamble@, t.slot(), k),
    ensures
        t.outcome(doc) is Ok,
        slot_editor::with_capital(doc, t.slot()) is None ==> t.outcome(doc)->Ok_0 == doc,
        slot_editor::with_capital(doc, t.slot()) is Some ==> t.outcome(doc)->Ok_0
            == slot_editor::with_capital(doc, t.slot())->0,
{
    slot_editor::lemma_grammar_index_is(t.grammar().preamble@, t.slot(), k);
}

} // verus!
