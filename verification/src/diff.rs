//! The semantic difference of two documents.

use vstd::prelude::*;

use crate::document::{same_element, ContentElement, Document, DocumentView, ElementView, SlotView};
use crate::schema::{SlotName, Spanned};
use crate::text::same;
use crate::vector;
use crate::vector::{
    clone_elements, element_at, element_count, elements_shared, slot_at, slot_count, slots_shared,
};

verus! {

/// The result of comparing two documents.
#[derive(Debug)]
pub struct DocumentDiff {
    pub changes: Vec<Change>,
}

/// A single semantic change between two documents.
#[derive(Debug)]
pub enum Change {
    SlotAdded { name: SlotName, elements: im::Vector<Spanned<ContentElement>> },
    SlotChanged {
        name: SlotName,
        before: im::Vector<Spanned<ContentElement>>,
        after: im::Vector<Spanned<ContentElement>>,
    },
    SlotRemoved { name: SlotName, elements: im::Vector<Spanned<ContentElement>> },
    SeparatorAdded,
    SeparatorRemoved,
    BodyChanged {
        before: im::Vector<Spanned<ContentElement>>,
        after: im::Vector<Spanned<ContentElement>>,
    },
}

/// The mathematical counterpart of [`Change`].
pub enum ChangeView {
    SlotAdded { name: Seq<char>, elements: Seq<Spanned<ElementView>> },
    SlotChanged {
        name: Seq<char>,
        before: Seq<Spanned<ElementView>>,
        after: Seq<Spanned<ElementView>>,
    },
    SlotRemoved { name: Seq<char>, elements: Seq<Spanned<ElementView>> },
    SeparatorAdded,
    SeparatorRemoved,
    BodyChanged { before: Seq<Spanned<ElementView>>, after: Seq<Spanned<ElementView>> },
}

impl View for Change {
    type V = ChangeView;

    open spec fn view(&self) -> ChangeView {
        match self {
            Change::SlotAdded { name, elements } => ChangeView::SlotAdded {
                name: name@,
                elements: vector::element_items(*elements),
            },
            Change::SlotChanged { name, before, after } => ChangeView::SlotChanged {
                name: name@,
                before: vector::element_items(*before),
                after: vector::element_items(*after),
            },
            Change::SlotRemoved { name, elements } => ChangeView::SlotRemoved {
                name: name@,
                elements: vector::element_items(*elements),
            },
            Change::SeparatorAdded => ChangeView::SeparatorAdded,
            Change::SeparatorRemoved => ChangeView::SeparatorRemoved,
            Change::BodyChanged { before, after } => ChangeView::BodyChanged {
                before: vector::element_items(*before),
                after: vector::element_items(*after),
            },
        }
    }
}

impl View for DocumentDiff {
    type V = Seq<ChangeView>;

    open spec fn view(&self) -> Seq<ChangeView> {
        self.changes@.map_values(|c: Change| c@)
    }
}

impl DocumentDiff {
    /// Returns true if no changes were detected.
    pub fn is_empty(&self) -> (r: bool)
        ensures
            r == (self@.len() == 0),
    {
        self.changes.len() == 0
    }
}

/// Whether two runs of elements are the same, wherever they stand in their
/// sources.
pub open spec fn same_nodes(a: Seq<Spanned<ElementView>>, b: Seq<Spanned<ElementView>>) -> bool {
    a.len() == b.len() && forall|i: int|
        0 <= i < a.len() ==> (#[trigger] a[i]).node == (#[trigger] b[i]).node
}

/// The index of the first slot with the given name, or the number of slots.
pub open spec fn slot_index(slots: Seq<SlotView>, name: Seq<char>) -> int
    decreases slots.len(),
{
    if slots.len() == 0 || slots[0].name == name {
        0
    } else {
        1 + slot_index(slots.skip(1), name)
    }
}

/// Whether there is a slot with the given name.
pub open spec fn has_slot(slots: Seq<SlotView>, name: Seq<char>) -> bool {
    slot_index(slots, name) < slots.len()
}

/// What became of a slot of the later document: it was added, or it was changed
/// from the first slot of that name, or neither.
pub open spec fn slot_change(before: Seq<SlotView>, slot: SlotView) -> Seq<ChangeView> {
    if !has_slot(before, slot.name) {
        if slot.elements.len() > 0 {
            seq![ChangeView::SlotAdded { name: slot.name, elements: slot.elements }]
        } else {
            seq![]
        }
    } else {
        let old_slot = before[slot_index(before, slot.name)];
        if same_nodes(old_slot.elements, slot.elements) {
            seq![]
        } else {
            seq![
                ChangeView::SlotChanged {
                    name: slot.name,
                    before: old_slot.elements,
                    after: slot.elements,
                },
            ]
        }
    }
}

/// What became of the slots of the later document.
pub open spec fn slot_changes(before: Seq<SlotView>, after: Seq<SlotView>) -> Seq<ChangeView>
    decreases after.len(),
{
    if after.len() == 0 {
        seq![]
    } else {
        slot_changes(before, after.drop_last()) + slot_change(before, after.last())
    }
}

/// Whether a slot of the earlier document is gone from the later one.
pub open spec fn slot_removal(slot: SlotView, after: Seq<SlotView>) -> Seq<ChangeView> {
    if !has_slot(after, slot.name) && slot.elements.len() > 0 {
        seq![ChangeView::SlotRemoved { name: slot.name, elements: slot.elements }]
    } else {
        seq![]
    }
}

/// The slots of the earlier document that are gone from the later one.
pub open spec fn slot_removals(before: Seq<SlotView>, after: Seq<SlotView>) -> Seq<ChangeView>
    decreases before.len(),
{
    if before.len() == 0 {
        seq![]
    } else {
        slot_removals(before.drop_last(), after) + slot_removal(before.last(), after)
    }
}

/// Whether the separator came or went.
pub open spec fn separator_change(before: DocumentView, after: DocumentView) -> Seq<ChangeView> {
    if !before.has_separator && after.has_separator {
        seq![ChangeView::SeparatorAdded]
    } else if before.has_separator && !after.has_separator {
        seq![ChangeView::SeparatorRemoved]
    } else {
        seq![]
    }
}

/// What changed in the preamble. A preamble that is one and the same need not
/// be compared.
pub open spec fn preamble_changes(
    before: DocumentView,
    after: DocumentView,
    shared: bool,
) -> Seq<ChangeView> {
    if shared {
        seq![]
    } else {
        slot_changes(before.preamble, after.preamble) + slot_removals(
            before.preamble,
            after.preamble,
        )
    }
}

/// Whether the body changed.
pub open spec fn body_change(before: DocumentView, after: DocumentView) -> Seq<ChangeView> {
    if same_nodes(before.body, after.body) {
        seq![]
    } else {
        seq![ChangeView::BodyChanged { before: before.body, after: after.body }]
    }
}

/// The changes between two documents: of the separator, of the slots, of the
/// body. `shared` says that the two preambles are one and the same.
pub open spec fn changes_between(
    before: DocumentView,
    after: DocumentView,
    shared: bool,
) -> Seq<ChangeView> {
    separator_change(before, after) + preamble_changes(before, after, shared) + body_change(
        before,
        after,
    )
}

/// Compare two runs of elements by content; where they stand is ignored.
pub fn elements_equal(
    a: &im::Vector<Spanned<ContentElement>>,
    b: &im::Vector<Spanned<ContentElement>>,
) -> (r: bool)
    ensures
        r == same_nodes(vector::element_items(*a), vector::element_items(*b)),
{
    let ghost x = vector::element_items(*a);
    let ghost y = vector::element_items(*b);
    let n = element_count(a);
    if n != element_count(b) {
        return false;
    }
    let mut i: usize = 0;
    while i < n
        invariant
            i <= n,
            n == x.len(),
            n == y.len(),
            x == vector::element_items(*a),
            y == vector::element_items(*b),
            forall|k: int| 0 <= k < i ==> (#[trigger] x[k]).node == (#[trigger] y[k]).node,
        decreases n - i,
    {
        let e = element_at(a, i);
        let f = element_at(b, i);
        if !same_element(&e.node, &f.node) {
            proof {
                assert(x[i as int].node != y[i as int].node);
            }
            return false;
        }
        i += 1;
    }
    true
}

/// Whether two runs of elements are the same, compared only where they do not
/// share their storage.
fn unchanged(
    a: &im::Vector<Spanned<ContentElement>>,
    b: &im::Vector<Spanned<ContentElement>>,
) -> (r: bool)
    ensures
        r == same_nodes(vector::element_items(*a), vector::element_items(*b)),
{
    elements_shared(a, b) || elements_equal(a, b)
}

/// A slot index names a slot with the name and none before it, or the end.
pub proof fn lemma_slot_index(slots: Seq<SlotView>, name: Seq<char>)
    ensures
        0 <= slot_index(slots, name) <= slots.len(),
        slot_index(slots, name) < slots.len() ==> slots[slot_index(slots, name)].name == name,
        forall|k: int| 0 <= k < slot_index(slots, name) ==> (#[trigger] slots[k]).name != name,
    decreases slots.len(),
{
    if slots.len() > 0 && slots[0].name != name {
        lemma_slot_index(slots.skip(1), name);
        assert forall|k: int| 0 <= k < slot_index(slots, name) implies (#[trigger] slots[k]).name
            != name by {
            if k > 0 {
                assert(slots.skip(1)[k - 1] == slots[k]);
            }
        }
    }
}

/// A slot with the name and none before it is the first one.
pub proof fn lemma_slot_index_is(slots: Seq<SlotView>, name: Seq<char>, n: int)
    requires
        0 <= n <= slots.len(),
        n < slots.len() ==> slots[n].name == name,
        forall|k: int| 0 <= k < n ==> (#[trigger] slots[k]).name != name,
    ensures
        slot_index(slots, name) == n,
{
    lemma_slot_index(slots, name);
    let m = slot_index(slots, name);
    if m < n {
        assert(slots[m].name != name);
    }
    if n < m {
        assert(slots[n].name != name);
    }
}

/// The index of the first slot with the given name, or the number of slots.
pub fn find_slot(slots: &im::Vector<crate::document::DocumentSlot>, name: &str) -> (r: usize)
    ensures
        r == slot_index(vector::slot_items(*slots), name@),
        r <= vector::slot_items(*slots).len(),
{
    let ghost items = vector::slot_items(*slots);
    let n = slot_count(slots);
    let mut i: usize = 0;
    while i < n
        invariant
            i <= n,
            n == items.len(),
            items == vector::slot_items(*slots),
            forall|k: int| 0 <= k < i ==> (#[trigger] items[k]).name != name@,
        decreases n - i,
    {
        if same(slot_at(slots, i).name.as_str(), name) {
            proof {
                lemma_slot_index_is(items, name@, i as int);
            }
            return i;
        }
        i += 1;
    }
    proof {
        lemma_slot_index_is(items, name@, n as int);
    }
    n
}

/// The views of a list of changes.
pub open spec fn change_views(changes: Seq<Change>) -> Seq<ChangeView> {
    changes.map_values(|c: Change| c@)
}

/// Puts a change behind the others.
fn push_change(changes: &mut Vec<Change>, change: Change)
    ensures
        change_views(final(changes)@) == change_views(old(changes)@) + seq![change@],
{
    let ghost before = changes@;
    changes.push(change);
    proof {
        assert(change_views(changes@) =~= change_views(before) + seq![change@]);
    }
}

/// Puts what became of the preamble behind the changes.
fn push_preamble_changes(
    changes: &mut Vec<Change>,
    before: &im::Vector<crate::document::DocumentSlot>,
    after: &im::Vector<crate::document::DocumentSlot>,
)
    ensures
        change_views(final(changes)@) == change_views(old(changes)@) + (slot_changes(
            vector::slot_items(*before),
            vector::slot_items(*after),
        ) + slot_removals(vector::slot_items(*before), vector::slot_items(*after))),
{
    let ghost first = change_views(changes@);
    let ghost old_slots = vector::slot_items(*before);
    let ghost new_slots = vector::slot_items(*after);
    let n = slot_count(after);
    let m = slot_count(before);
    let mut i: usize = 0;
    proof {
        assert(new_slots.take(0) =~= seq![]);
        assert(first + Seq::<ChangeView>::empty() =~= first);
    }
    while i < n
        invariant
            i <= n,
            n == new_slots.len(),
            m == old_slots.len(),
            old_slots == vector::slot_items(*before),
            new_slots == vector::slot_items(*after),
            change_views(changes@) == first + slot_changes(old_slots, new_slots.take(i as int)),
        decreases n - i,
    {
        proof {
            assert(new_slots.take(i + 1).drop_last() == new_slots.take(i as int));
        }
        let ghost so_far = change_views(changes@);
        let slot = slot_at(after, i);
        let at = find_slot(before, slot.name.as_str());
        if at == m {
            if element_count(&slot.elements) > 0 {
                push_change(
                    changes,
                    Change::SlotAdded {
                        name: slot.name.clone(),
                        elements: clone_elements(&slot.elements),
                    },
                );
            }
        } else {
            let old_slot = slot_at(before, at);
            if !unchanged(&old_slot.elements, &slot.elements) {
                push_change(
                    changes,
                    Change::SlotChanged {
                        name: slot.name.clone(),
                        before: clone_elements(&old_slot.elements),
                        after: clone_elements(&slot.elements),
                    },
                );
            }
        }
        proof {
            assert(change_views(changes@) =~= so_far + slot_change(old_slots, slot@));
            assert(change_views(changes@) =~= first + slot_changes(
                old_slots,
                new_slots.take(i + 1),
            ));
        }
        i += 1;
    }
    let ghost middle = change_views(changes@);
    let mut j: usize = 0;
    proof {
        assert(new_slots.take(n as int) == new_slots);
        assert(old_slots.take(0) =~= seq![]);
        assert(middle + Seq::<ChangeView>::empty() =~= middle);
    }
    while j < m
        invariant
            j <= m,
            n == new_slots.len(),
            m == old_slots.len(),
            old_slots == vector::slot_items(*before),
            new_slots == vector::slot_items(*after),
            change_views(changes@) == middle + slot_removals(old_slots.take(j as int), new_slots),
        decreases m - j,
    {
        proof {
            assert(old_slots.take(j + 1).drop_last() == old_slots.take(j as int));
        }
        let ghost so_far = change_views(changes@);
        let slot = slot_at(before, j);
        let at = find_slot(after, slot.name.as_str());
        if at == n && element_count(&slot.elements) > 0 {
            push_change(
                changes,
                Change::SlotRemoved {
                    name: slot.name.clone(),
                    elements: clone_elements(&slot.elements),
                },
            );
        }
        proof {
            assert(change_views(changes@) =~= so_far + slot_removal(slot@, new_slots));
            assert(change_views(changes@) =~= middle + slot_removals(
                old_slots.take(j + 1),
                new_slots,
            ));
        }
        j += 1;
    }
    proof {
        assert(old_slots.take(m as int) == old_slots);
        assert(change_views(changes@) =~= first + (slot_changes(old_slots, new_slots)
            + slot_removals(old_slots, new_slots)));
    }
}

/// Compare two documents.
///
/// Where the two preambles share their storage they are not compared: then
/// they hold the same, and nothing changed.
pub fn diff(before: &Document, after: &Document) -> (r: DocumentDiff)
    ensures
        exists|shared: bool|
            {
                &&& shared ==> before@.preamble == after@.preamble
                &&& r@ == #[trigger] changes_between(before@, after@, shared)
            },
{
    let mut changes: Vec<Change> = Vec::new();
    proof {
        assert(change_views(changes@) =~= seq![]);
    }
    if !before.has_separator && after.has_separator {
        push_change(&mut changes, Change::SeparatorAdded);
    } else if before.has_separator && !after.has_separator {
        push_change(&mut changes, Change::SeparatorRemoved);
    }
    proof {
        assert(change_views(changes@) =~= separator_change(before@, after@));
    }
    let shared = slots_shared(&before.preamble, &after.preamble);
    if !shared {
        push_preamble_changes(&mut changes, &before.preamble, &after.preamble);
    }
    proof {
        assert(change_views(changes@) =~= separator_change(before@, after@) + preamble_changes(
            before@,
            after@,
            shared,
        ));
    }
    if !unchanged(&before.body, &after.body) {
        push_change(
            &mut changes,
            Change::BodyChanged {
                before: clone_elements(&before.body),
                after: clone_elements(&after.body),
            },
        );
    }
    let r = DocumentDiff { changes };
    proof {
        assert(r@ =~= changes_between(before@, after@, shared));
    }
    r
}

/// Whether no two slots have the same name.
pub open spec fn distinct_names(slots: Seq<SlotView>) -> bool {
    forall|i: int, j: int|
        0 <= i < j < slots.len() ==> (#[trigger] slots[i]).name != (#[trigger] slots[j]).name
}

/// Whether two documents hold the same, wherever it stands in their sources.
pub open spec fn same_content(a: DocumentView, b: DocumentView) -> bool {
    &&& a.has_separator == b.has_separator
    &&& a.preamble.len() == b.preamble.len()
    &&& forall|i: int|
        0 <= i < a.preamble.len() ==> {
            &&& (#[trigger] a.preamble[i]).name == (#[trigger] b.preamble[i]).name
            &&& same_nodes(a.preamble[i].elements, b.preamble[i].elements)
        }
    &&& same_nodes(a.body, b.body)
}

/// Slots that hold the same show no change.
proof fn lemma_no_slot_changes(before: Seq<SlotView>, after: Seq<SlotView>, k: int)
    requires
        before.len() == after.len(),
        0 <= k <= after.len(),
        distinct_names(before),
        forall|i: int|
            0 <= i < before.len() ==> {
                &&& (#[trigger] before[i]).name == (#[trigger] after[i]).name
                &&& same_nodes(before[i].elements, after[i].elements)
            },
    ensures
        slot_changes(before, after.take(k)).len() == 0,
        slot_removals(before.take(k), after).len() == 0,
    decreases k,
{
    if k > 0 {
        lemma_no_slot_changes(before, after, k - 1);
        assert(after.take(k).drop_last() == after.take(k - 1));
        assert(before.take(k).drop_last() == before.take(k - 1));
        let name = after[k - 1].name;
        assert(before[k - 1].name == name);
        assert forall|i: int| 0 <= i < k - 1 implies (#[trigger] before[i]).name != name by {}
        lemma_slot_index_is(before, name, k - 1);
        assert forall|i: int| 0 <= i < k - 1 implies (#[trigger] after[i]).name != name by {
            assert(before[i].name == after[i].name);
        }
        lemma_slot_index_is(after, name, k - 1);
        assert(slot_change(before, after[k - 1]).len() == 0);
        assert(slot_removal(before[k - 1], after).len() == 0);
    }
}

/// Two documents that hold the same have no difference, though their elements
/// stand elsewhere in their sources. The slots have names of their own.
pub proof fn law_same_content_has_no_diff(
    before: DocumentView,
    after: DocumentView,
    shared: bool,
)
    requires
        same_content(before, after),
        distinct_names(before.preamble),
    ensures
        changes_between(before, after, shared).len() == 0,
{
    let n = after.preamble.len() as int;
    lemma_no_slot_changes(before.preamble, after.preamble, n);
    assert(after.preamble.take(n) == after.preamble);
    assert(before.preamble.take(n) == before.preamble);
}

/// That two preambles share their storage spares a comparison and changes
/// nothing in the result. The slots have names of their own.
pub proof fn law_sharing_changes_no_diff(before: DocumentView, after: DocumentView)
    requires
        before.preamble == after.preamble,
        distinct_names(before.preamble),
    ensures
        changes_between(before, after, true) == changes_between(before, after, false),
{
    let n = after.preamble.len() as int;
    lemma_no_slot_changes(before.preamble, after.preamble, n);
    assert(after.preamble.take(n) == after.preamble);
    assert(preamble_changes(before, after, false) =~= preamble_changes(before, after, true));
}

/// Where the difference is empty, the documents have the same separator and the
/// same body, and every slot of the later one that an earlier slot has the name
/// of holds what the first such slot holds.
pub proof fn law_empty_diff_means_same(before: DocumentView, after: DocumentView, i: int)
    requires
        changes_between(before, after, false).len() == 0,
        0 <= i < after.preamble.len(),
    ensures
        before.has_separator == after.has_separator,
        same_nodes(before.body, after.body),
        has_slot(before.preamble, after.preamble[i].name) ==> same_nodes(
            before.preamble[slot_index(before.preamble, after.preamble[i].name)].elements,
            after.preamble[i].elements,
        ),
        !has_slot(before.preamble, after.preamble[i].name) ==> after.preamble[i].elements.len()
            == 0,
{
    lemma_slot_changes_include(before.preamble, after.preamble, i);
}

/// The changes of the slots hold those of each slot.
proof fn lemma_slot_changes_include(before: Seq<SlotView>, after: Seq<SlotView>, i: int)
    requires
        0 <= i < after.len(),
    ensures
        slot_change(before, after[i]).len() <= slot_changes(before, after).len(),
    decreases after.len(),
{
    if i < after.len() - 1 {
        lemma_slot_changes_include(before, after.drop_last(), i);
        assert(after.drop_last()[i] == after[i]);
    }
}

/// A change seen from the other side: what was there before comes after.
pub open spec fn swapped(change: ChangeView) -> ChangeView {
    match change {
        ChangeView::SlotAdded { name, elements } => ChangeView::SlotRemoved { name, elements },
        ChangeView::SlotRemoved { name, elements } => ChangeView::SlotAdded { name, elements },
        ChangeView::SlotChanged { name, before, after } => ChangeView::SlotChanged {
            name,
            before: after,
            after: before,
        },
        ChangeView::SeparatorAdded => ChangeView::SeparatorRemoved,
        ChangeView::SeparatorRemoved => ChangeView::SeparatorAdded,
        ChangeView::BodyChanged { before, after } => ChangeView::BodyChanged {
            before: after,
            after: before,
        },
    }
}

/// A list holds what one of its two parts holds.
proof fn lemma_contains_concat(a: Seq<ChangeView>, b: Seq<ChangeView>, change: ChangeView)
    ensures
        (a + b).contains(change) <==> a.contains(change) || b.contains(change),
{
    let all = a + b;
    if all.contains(change) {
        let i = choose|i: int| 0 <= i < all.len() && all[i] == change;
        if i < a.len() {
            assert(a[i] == change);
        } else {
            assert(b[i - a.len()] == change);
        }
    }
    if a.contains(change) {
        let i = choose|i: int| 0 <= i < a.len() && a[i] == change;
        assert(all[i] == change);
    }
    if b.contains(change) {
        let i = choose|i: int| 0 <= i < b.len() && b[i] == change;
        assert(all[a.len() + i] == change);
    }
}

/// A change of the slots is the change of one of them.
proof fn lemma_slot_change_of_one(before: Seq<SlotView>, after: Seq<SlotView>, change: ChangeView)
    ensures
        slot_changes(before, after).contains(change) <==> exists|i: int|
            0 <= i < after.len() && slot_change(before, #[trigger] after[i]).contains(change),
    decreases after.len(),
{
    if after.len() > 0 {
        let front = after.drop_last();
        lemma_slot_change_of_one(before, front, change);
        lemma_contains_concat(
            slot_changes(before, front),
            slot_change(before, after.last()),
            change,
        );
        if slot_changes(before, front).contains(change) {
            let i = choose|i: int|
                0 <= i < front.len() && slot_change(before, #[trigger] front[i]).contains(change);
            assert(after[i] == front[i]);
        }
        if slot_change(before, after.last()).contains(change) {
            assert(after[after.len() - 1] == after.last());
        }
        if exists|i: int|
            0 <= i < after.len() && slot_change(before, #[trigger] after[i]).contains(change) {
            let i = choose|i: int|
                0 <= i < after.len() && slot_change(before, #[trigger] after[i]).contains(change);
            if i < front.len() {
                assert(front[i] == after[i]);
            }
        }
    }
}

/// A removal of slots is the removal of one of them.
proof fn lemma_slot_removal_of_one(before: Seq<SlotView>, after: Seq<SlotView>, change: ChangeView)
    ensures
        slot_removals(before, after).contains(change) <==> exists|i: int|
            0 <= i < before.len() && slot_removal(#[trigger] before[i], after).contains(change),
    decreases before.len(),
{
    if before.len() > 0 {
        let front = before.drop_last();
        lemma_slot_removal_of_one(front, after, change);
        lemma_contains_concat(
            slot_removals(front, after),
            slot_removal(before.last(), after),
            change,
        );
        if slot_removals(front, after).contains(change) {
            let i = choose|i: int|
                0 <= i < front.len() && slot_removal(#[trigger] front[i], after).contains(change);
            assert(before[i] == front[i]);
        }
        if slot_removal(before.last(), after).contains(change) {
            assert(before[before.len() - 1] == before.last());
        }
        if exists|i: int|
            0 <= i < before.len() && slot_removal(#[trigger] before[i], after).contains(change) {
            let i = choose|i: int|
                0 <= i < before.len() && slot_removal(#[trigger] before[i], after).contains(change);
            if i < front.len() {
                assert(front[i] == before[i]);
            }
        }
    }
}

/// A slot with a name of its own is the first one with that name.
proof fn lemma_own_index(slots: Seq<SlotView>, i: int)
    requires
        distinct_names(slots),
        0 <= i < slots.len(),
    ensures
        slot_index(slots, slots[i].name) == i,
{
    assert forall|k: int| 0 <= k < i implies (#[trigger] slots[k]).name != slots[i].name by {}
    lemma_slot_index_is(slots, slots[i].name, i);
}

/// A change of the preamble is, from the other side, the same with both sides
/// swapped.
proof fn lemma_preamble_swapped(before: Seq<SlotView>, after: Seq<SlotView>, change: ChangeView)
    requires
        distinct_names(before),
        distinct_names(after),
        (slot_changes(before, after) + slot_removals(before, after)).contains(change),
    ensures
        (slot_changes(after, before) + slot_removals(after, before)).contains(swapped(change)),
{
    let other = swapped(change);
    lemma_contains_concat(slot_changes(before, after), slot_removals(before, after), change);
    lemma_contains_concat(slot_changes(after, before), slot_removals(after, before), other);
    lemma_slot_change_of_one(before, after, change);
    lemma_slot_removal_of_one(before, after, change);
    lemma_slot_change_of_one(after, before, other);
    lemma_slot_removal_of_one(after, before, other);
    if slot_changes(before, after).contains(change) {
        let i = choose|i: int|
            0 <= i < after.len() && slot_change(before, #[trigger] after[i]).contains(change);
        let slot = after[i];
        let one = slot_change(before, slot);
        let at = choose|at: int| 0 <= at < one.len() && one[at] == change;
        assert(one[at] == one[0]);
        if has_slot(before, slot.name) {
            let j = slot_index(before, slot.name);
            lemma_slot_index(before, slot.name);
            lemma_own_index(after, i);
            let back = slot_change(after, before[j]);
            assert(!same_nodes(slot.elements, before[j].elements));
            assert(back[0] == other);
            assert(slot_change(after, before[j]).contains(other));
        } else {
            assert(slot_removal(after[i], before)[0] == other);
            assert(slot_removal(after[i], before).contains(other));
        }
    } else {
        let i = choose|i: int|
            0 <= i < before.len() && slot_removal(#[trigger] before[i], after).contains(change);
        let one = slot_removal(before[i], after);
        let at = choose|at: int| 0 <= at < one.len() && one[at] == change;
        assert(one[at] == one[0]);
        assert(slot_change(after, before[i])[0] == other);
        assert(slot_change(after, before[i]).contains(other));
    }
}

/// The difference the other way round holds the same changes with both sides
/// swapped, though they may stand in another order. The slots have names of their
/// own.
pub proof fn law_diff_the_other_way_round(
    before: DocumentView,
    after: DocumentView,
    change: ChangeView,
)
    requires
        distinct_names(before.preamble),
        distinct_names(after.preamble),
    ensures
        changes_between(before, after, false).contains(change) <==> changes_between(
            after,
            before,
            false,
        ).contains(swapped(change)),
{
    lemma_diff_swapped(before, after, change);
    lemma_diff_swapped(after, before, swapped(change));
    assert(swapped(swapped(change)) == change);
}

/// A change is, from the other side, the same with both sides swapped.
proof fn lemma_diff_swapped(before: DocumentView, after: DocumentView, change: ChangeView)
    requires
        distinct_names(before.preamble),
        distinct_names(after.preamble),
    ensures
        changes_between(before, after, false).contains(change) ==> changes_between(
            after,
            before,
            false,
        ).contains(swapped(change)),
{
    if changes_between(before, after, false).contains(change) {
        let other = swapped(change);
        let separator = separator_change(before, after);
        let slots = preamble_changes(before, after, false);
        let body = body_change(before, after);
        lemma_contains_concat(separator + slots, body, change);
        lemma_contains_concat(separator, slots, change);
        let back_separator = separator_change(after, before);
        let back_slots = preamble_changes(after, before, false);
        let back_body = body_change(after, before);
        lemma_contains_concat(back_separator + back_slots, back_body, other);
        lemma_contains_concat(back_separator, back_slots, other);
        if slots.contains(change) {
            lemma_preamble_swapped(before.preamble, after.preamble, change);
        } else if separator.contains(change) {
            let at = choose|at: int| 0 <= at < separator.len() && separator[at] == change;
            assert(separator[at] == separator[0]);
            assert(back_separator[0] == other);
        } else {
            let at = choose|at: int| 0 <= at < body.len() && body[at] == change;
            assert(body[at] == body[0]);
            assert(!same_nodes(after.body, before.body));
            assert(back_body[0] == other);
        }
    }
}

/// Whether two lists hold the same slots, in whatever order.
pub open spec fn same_slots(a: Seq<SlotView>, b: Seq<SlotView>) -> bool {
    forall|slot: SlotView| a.contains(slot) <==> b.contains(slot)
}

/// A slot is found by its name in whatever order the slots stand.
proof fn lemma_found_in_any_order(a: Seq<SlotView>, b: Seq<SlotView>, name: Seq<char>)
    requires
        distinct_names(b),
        same_slots(a, b),
        has_slot(a, name),
    ensures
        has_slot(b, name),
        a[slot_index(a, name)] == b[slot_index(b, name)],
{
    lemma_slot_index(a, name);
    let slot = a[slot_index(a, name)];
    assert(a.contains(slot));
    assert(b.contains(slot));
    let j = choose|j: int| 0 <= j < b.len() && b[j] == slot;
    lemma_own_index(b, j);
}

/// A change of a preamble does not depend on the order of the slots.
proof fn lemma_preamble_in_any_order(
    before: Seq<SlotView>,
    after: Seq<SlotView>,
    other_before: Seq<SlotView>,
    other_after: Seq<SlotView>,
    change: ChangeView,
)
    requires
        distinct_names(before),
        distinct_names(other_before),
        distinct_names(after),
        distinct_names(other_after),
        same_slots(before, other_before),
        same_slots(after, other_after),
        (slot_changes(before, after) + slot_removals(before, after)).contains(change),
    ensures
        (slot_changes(other_before, other_after) + slot_removals(
            other_before,
            other_after,
        )).contains(change),
{
    lemma_contains_concat(slot_changes(before, after), slot_removals(before, after), change);
    lemma_contains_concat(
        slot_changes(other_before, other_after),
        slot_removals(other_before, other_after),
        change,
    );
    lemma_slot_change_of_one(before, after, change);
    lemma_slot_removal_of_one(before, after, change);
    lemma_slot_change_of_one(other_before, other_after, change);
    lemma_slot_removal_of_one(other_before, other_after, change);
    if slot_changes(before, after).contains(change) {
        let i = choose|i: int|
            0 <= i < after.len() && slot_change(before, #[trigger] after[i]).contains(change);
        let slot = after[i];
        assert(after.contains(slot));
        assert(other_after.contains(slot));
        let j = choose|j: int| 0 <= j < other_after.len() && other_after[j] == slot;
        if has_slot(before, slot.name) {
            lemma_found_in_any_order(before, other_before, slot.name);
        } else if has_slot(other_before, slot.name) {
            lemma_found_in_any_order(other_before, before, slot.name);
        }
        assert(slot_change(other_before, other_after[j]) == slot_change(before, slot));
    } else {
        let i = choose|i: int|
            0 <= i < before.len() && slot_removal(#[trigger] before[i], after).contains(change);
        let slot = before[i];
        assert(before.contains(slot));
        assert(other_before.contains(slot));
        let j = choose|j: int| 0 <= j < other_before.len() && other_before[j] == slot;
        if has_slot(after, slot.name) {
            lemma_found_in_any_order(after, other_after, slot.name);
        } else if has_slot(other_after, slot.name) {
            lemma_found_in_any_order(other_after, after, slot.name);
        }
        assert(slot_removal(other_before[j], other_after) == slot_removal(slot, after));
    }
}

/// The changes between two documents do not depend on the order of their slots. The
/// slots have names of their own.
pub proof fn law_order_of_slots_changes_no_diff(
    before: DocumentView,
    after: DocumentView,
    before_slots: Seq<SlotView>,
    after_slots: Seq<SlotView>,
    change: ChangeView,
)
    requires
        distinct_names(before.preamble),
        distinct_names(before_slots),
        distinct_names(after.preamble),
        distinct_names(after_slots),
        same_slots(before.preamble, before_slots),
        same_slots(after.preamble, after_slots),
    ensures
        changes_between(before, after, false).contains(change) <==> changes_between(
            (DocumentView { preamble: before_slots, ..before }),
            (DocumentView { preamble: after_slots, ..after }),
            false,
        ).contains(change),
{
    let other_before = DocumentView { preamble: before_slots, ..before };
    let other_after = DocumentView { preamble: after_slots, ..after };
    let separator = separator_change(before, after);
    let body = body_change(before, after);
    assert(separator_change(other_before, other_after) == separator);
    assert(body_change(other_before, other_after) == body);
    let slots = preamble_changes(before, after, false);
    let other_slots = preamble_changes(other_before, other_after, false);
    lemma_contains_concat(separator + slots, body, change);
    lemma_contains_concat(separator, slots, change);
    lemma_contains_concat(separator + other_slots, body, change);
    lemma_contains_concat(separator, other_slots, change);
    if slots.contains(change) {
        lemma_preamble_in_any_order(
            before.preamble,
            after.preamble,
            before_slots,
            after_slots,
            change,
        );
    }
    if other_slots.contains(change) {
        lemma_preamble_in_any_order(
            before_slots,
            after_slots,
            before.preamble,
            after.preamble,
            change,
        );
    }
}

/// The first slot of the given name holds the given elements.
pub open spec fn first_holds(
    slots: Seq<SlotView>,
    name: Seq<char>,
    elements: Seq<Spanned<ElementView>>,
) -> bool {
    exists|h: int|
        {
            &&& 0 <= h < slots.len()
            &&& (#[trigger] slots[h]).name == name
            &&& slots[h].elements == elements
            &&& forall|j: int| 0 <= j < h ==> (#[trigger] slots[j]).name != name
        }
}

/// The only change in a list of one.
proof fn lemma_one_change(change: ChangeView, other: ChangeView)
    ensures
        seq![change].contains(other) <==> change == other,
        !Seq::<ChangeView>::empty().contains(other),
{
    if change == other {
        assert(seq![change][0] == other);
    }
}

/// What is among the changes: each slot of the later document that has elements and no
/// earlier slot of its name is added, with these; each one that holds other elements
/// than the first earlier slot of its name is changed, from those to these; each earlier
/// slot with elements whose name no later slot has is removed, with these; the separator
/// comes or goes; and the body changes from the earlier elements to the later ones.
pub proof fn law_changes_say_what_changed(
    before: DocumentView,
    after: DocumentView,
    change: ChangeView,
)
    ensures
        changes_between(before, after, false).contains(change) <==> match change {
            ChangeView::SeparatorAdded => !before.has_separator && after.has_separator,
            ChangeView::SeparatorRemoved => before.has_separator && !after.has_separator,
            ChangeView::BodyChanged { before: b, after: a } => {
                &&& b == before.body
                &&& a == after.body
                &&& a.len() != b.len() || exists|i: int|
                    0 <= i < a.len() && (#[trigger] a[i]).node != b[i].node
            },
            ChangeView::SlotAdded { name, elements } => {
                &&& elements.len() > 0
                &&& after.preamble.contains((SlotView { name, elements }))
                &&& forall|j: int|
                    0 <= j < before.preamble.len() ==> (#[trigger] before.preamble[j]).name != name
            },
            ChangeView::SlotRemoved { name, elements } => {
                &&& elements.len() > 0
                &&& before.preamble.contains((SlotView { name, elements }))
                &&& forall|j: int|
                    0 <= j < after.preamble.len() ==> (#[trigger] after.preamble[j]).name != name
            },
            ChangeView::SlotChanged { name, before: b, after: a } => {
                &&& after.preamble.contains((SlotView { name, elements: a }))
                &&& first_holds(before.preamble, name, b)
                &&& a.len() != b.len() || exists|i: int|
                    0 <= i < a.len() && (#[trigger] a[i]).node != b[i].node
            },
        },
{
    let separator = separator_change(before, after);
    let added = slot_changes(before.preamble, after.preamble);
    let removed = slot_removals(before.preamble, after.preamble);
    let body = body_change(before, after);
    lemma_contains_concat(separator + (added + removed), body, change);
    lemma_contains_concat(separator, added + removed, change);
    lemma_contains_concat(added, removed, change);
    lemma_slot_change_of_one(before.preamble, after.preamble, change);
    lemma_slot_removal_of_one(before.preamble, after.preamble, change);
    lemma_one_change(ChangeView::SeparatorAdded, change);
    lemma_one_change(ChangeView::SeparatorRemoved, change);
    lemma_one_change(ChangeView::BodyChanged { before: before.body, after: after.body }, change);
    lemma_nodes_differ(before.body, after.body);
    assert forall|i: int| 0 <= i < after.preamble.len() implies (slot_change(
        before.preamble,
        #[trigger] after.preamble[i],
    ).contains(change) ==> is_slot_change(before.preamble, after.preamble[i], change)) by {
        lemma_slot_change_is(before.preamble, after.preamble[i], change);
    }
    assert forall|i: int| 0 <= i < before.preamble.len() implies (slot_removal(
        #[trigger] before.preamble[i],
        after.preamble,
    ).contains(change) <==> is_slot_removal(before.preamble[i], after.preamble, change)) by {
        lemma_slot_removal_is(before.preamble[i], after.preamble, change);
    }
    match change {
        ChangeView::SlotAdded { name, elements } => {
            let slot = SlotView { name, elements };
            if after.preamble.contains(slot) {
                let i = choose|i: int| 0 <= i < after.preamble.len() && after.preamble[i] == slot;
                lemma_slot_change_is(before.preamble, after.preamble[i], change);
            }
        },
        ChangeView::SlotChanged { name, before: b, after: a } => {
            let slot = SlotView { name, elements: a };
            if after.preamble.contains(slot) {
                let i = choose|i: int| 0 <= i < after.preamble.len() && after.preamble[i] == slot;
                lemma_slot_change_is(before.preamble, after.preamble[i], change);
            }
            lemma_nodes_differ(b, a);
        },
        ChangeView::SlotRemoved { name, elements } => {
            let slot = SlotView { name, elements };
            if before.preamble.contains(slot) {
                let i = choose|i: int| 0 <= i < before.preamble.len() && before.preamble[i] == slot;
                lemma_slot_removal_is(before.preamble[i], after.preamble, change);
            }
        },
        _ => {},
    }
}

/// Runs of elements are not the same where their lengths or a node differ.
proof fn lemma_nodes_differ(b: Seq<Spanned<ElementView>>, a: Seq<Spanned<ElementView>>)
    ensures
        !same_nodes(b, a) <==> a.len() != b.len() || exists|i: int|
            0 <= i < a.len() && (#[trigger] a[i]).node != b[i].node,
{
    if a.len() == b.len() && !exists|i: int|
        0 <= i < a.len() && (#[trigger] a[i]).node != b[i].node {
        assert forall|i: int| 0 <= i < b.len() implies (#[trigger] b[i]).node == (
        #[trigger] a[i]).node by {}
    }
}

/// Whether a change is that of one slot of the later document.
spec fn is_slot_change(before: Seq<SlotView>, slot: SlotView, change: ChangeView) -> bool {
    match change {
        ChangeView::SlotAdded { name, elements } => {
            &&& elements.len() > 0
            &&& slot == (SlotView { name, elements })
            &&& forall|j: int| 0 <= j < before.len() ==> (#[trigger] before[j]).name != name
        },
        ChangeView::SlotChanged { name, before: b, after: a } => {
            &&& slot == (SlotView { name, elements: a })
            &&& first_holds(before, name, b)
            &&& !same_nodes(b, a)
        },
        _ => false,
    }
}

/// What became of one slot of the later document.
proof fn lemma_slot_change_is(before: Seq<SlotView>, slot: SlotView, change: ChangeView)
    ensures
        slot_change(before, slot).contains(change) <==> is_slot_change(before, slot, change),
{
    let at = slot_index(before, slot.name);
    lemma_slot_index(before, slot.name);
    lemma_one_change(ChangeView::SlotAdded { name: slot.name, elements: slot.elements }, change);
    if at < before.len() {
        let old_slot = before[at];
        lemma_one_change(
            ChangeView::SlotChanged {
                name: slot.name,
                before: old_slot.elements,
                after: slot.elements,
            },
            change,
        );
        assert(old_slot.name == slot.name);
        match change {
            ChangeView::SlotChanged { name, before: b, after: a } => {
                if first_holds(before, name, b) {
                    let h = choose|h: int|
                        {
                            &&& 0 <= h < before.len()
                            &&& (#[trigger] before[h]).name == name
                            &&& before[h].elements == b
                            &&& forall|j: int| 0 <= j < h ==> (#[trigger] before[j]).name != name
                        };
                    lemma_slot_index_is(before, name, h);
                }
                if name == slot.name && b == old_slot.elements {
                    assert(before[at].elements == b);
                    assert(first_holds(before, name, b));
                }
            },
            _ => {},
        }
    } else {
        assert forall|j: int| 0 <= j < before.len() implies (#[trigger] before[j]).name
            != slot.name by {}
    }
}

/// Whether a change is the removal of one slot of the earlier document.
spec fn is_slot_removal(slot: SlotView, after: Seq<SlotView>, change: ChangeView) -> bool {
    match change {
        ChangeView::SlotRemoved { name, elements } => {
            &&& elements.len() > 0
            &&& slot == (SlotView { name, elements })
            &&& forall|j: int| 0 <= j < after.len() ==> (#[trigger] after[j]).name != name
        },
        _ => false,
    }
}

/// Whether one slot of the earlier document is gone.
proof fn lemma_slot_removal_is(slot: SlotView, after: Seq<SlotView>, change: ChangeView)
    ensures
        slot_removal(slot, after).contains(change) <==> is_slot_removal(slot, after, change),
{
    let at = slot_index(after, slot.name);
    lemma_slot_index(after, slot.name);
    lemma_one_change(ChangeView::SlotRemoved { name: slot.name, elements: slot.elements }, change);
    if at < after.len() {
        assert(after[at].name == slot.name);
    } else {
        assert forall|j: int| 0 <= j < after.len() implies (#[trigger] after[j]).name
            != slot.name by {}
    }
}

/// The changes come in an order: that of the separator is the first, that of the body is
/// the last.
pub proof fn law_changes_come_in_order(before: DocumentView, after: DocumentView, i: int)
    requires
        0 <= i < changes_between(before, after, false).len(),
    ensures
        ({
            let change = changes_between(before, after, false)[i];
            &&& change is SeparatorAdded || change is SeparatorRemoved ==> i == 0
            &&& change is BodyChanged ==> i == changes_between(before, after, false).len() - 1
        }),
{
    let all = changes_between(before, after, false);
    let separator = separator_change(before, after);
    let added = slot_changes(before.preamble, after.preamble);
    let removed = slot_removals(before.preamble, after.preamble);
    let change = all[i];
    let slots = added + removed;
    if separator.len() <= i < separator.len() + slots.len() {
        assert(change == slots[i - separator.len()]);
        assert(slots.contains(change));
        lemma_contains_concat(added, removed, change);
        lemma_slot_change_of_one(before.preamble, after.preamble, change);
        lemma_slot_removal_of_one(before.preamble, after.preamble, change);
        if added.contains(change) {
            let k = choose|k: int|
                0 <= k < after.preamble.len() && slot_change(
                    before.preamble,
                    #[trigger] after.preamble[k],
                ).contains(change);
            lemma_slot_change_is(before.preamble, after.preamble[k], change);
        } else {
            let k = choose|k: int|
                0 <= k < before.preamble.len() && slot_removal(
                    #[trigger] before.preamble[k],
                    after.preamble,
                ).contains(change);
            lemma_slot_removal_is(before.preamble[k], after.preamble, change);
        }
    }
}

} // verus!
