//! The persistent vectors of the `im` crate that documents are built from.
//!
//! `im::Vector` is opaque here. What a vector holds has a name for each of the
//! two kinds of vector in a document, and the functions below say over those
//! names what the vector's methods do.

use vstd::prelude::*;

use crate::document::{ContentElement, DocumentSlot, ElementView, SlotView};
use crate::schema::Spanned;

verus! {

#[verifier::external_type_specification]
#[verifier::external_body]
#[verifier::reject_recursive_types(A)]
pub struct ExVector<A>(im::Vector<A>);

/// What a vector of elements holds, from front to back.
pub uninterp spec fn element_items(v: im::Vector<Spanned<ContentElement>>) -> Seq<
    Spanned<ElementView>,
>;

/// What a vector of slots holds, from front to back.
pub uninterp spec fn slot_items(v: im::Vector<DocumentSlot>) -> Seq<SlotView>;

/// `im::Vector::new`: the new vector holds nothing.
#[verifier::external_body]
pub(crate) fn no_elements() -> (r: im::Vector<Spanned<ContentElement>>)
    ensures
        element_items(r) == Seq::<Spanned<ElementView>>::empty(),
{
    im::Vector::new()
}

/// `im::Vector::len`: the number of elements that the vector holds.
#[verifier::external_body]
pub(crate) fn element_count(v: &im::Vector<Spanned<ContentElement>>) -> (r: usize)
    ensures
        r == element_items(*v).len(),
{
    v.len()
}

/// Indexing an `im::Vector`: the element at the index, which has to exist.
#[verifier::external_body]
pub(crate) fn element_at(v: &im::Vector<Spanned<ContentElement>>, i: usize) -> (r: &Spanned<
    ContentElement,
>)
    requires
        i < element_items(*v).len(),
    ensures
        r@ == element_items(*v)[i as int],
{
    &v[i]
}

/// `im::Vector::push_back`: the element is put behind the last one. The length
/// has to stay within `usize`.
#[verifier::external_body]
pub(crate) fn push_element(
    v: &mut im::Vector<Spanned<ContentElement>>,
    element: Spanned<ContentElement>,
)
    requires
        element_items(*old(v)).len() < usize::MAX,
    ensures
        element_items(*final(v)) == element_items(*old(v)).push(element@),
{
    v.push_back(element)
}

/// `im::Vector::append`: what `other` holds is put behind what `v` holds. The
/// length has to stay within `usize`.
#[verifier::external_body]
pub(crate) fn append_elements(
    v: &mut im::Vector<Spanned<ContentElement>>,
    other: im::Vector<Spanned<ContentElement>>,
)
    requires
        element_items(*old(v)).len() + element_items(other).len() <= usize::MAX,
    ensures
        element_items(*final(v)) == element_items(*old(v)) + element_items(other),
{
    v.append(other)
}

/// `im::Vector::clone`: the copy holds what the vector holds.
#[verifier::external_body]
pub(crate) fn clone_elements(v: &im::Vector<Spanned<ContentElement>>) -> (r: im::Vector<
    Spanned<ContentElement>,
>)
    ensures
        element_items(r) == element_items(*v),
{
    v.clone()
}

/// `im::Vector::slice` on a copy, with an open range: what the vector holds
/// from the given index on.
#[verifier::external_body]
pub(crate) fn elements_from(v: &im::Vector<Spanned<ContentElement>>, start: usize) -> (r: im::Vector<
    Spanned<ContentElement>,
>)
    requires
        start <= element_items(*v).len(),
    ensures
        element_items(r) == element_items(*v).skip(start as int),
{
    v.clone().slice(start..)
}

/// `im::Vector::ptr_eq`: where it finds that the two vectors share their
/// storage, they hold the same. Where it does not, they may hold the same or
/// not: what it finds depends on how the vectors were made.
#[verifier::external_body]
pub(crate) fn elements_shared(
    a: &im::Vector<Spanned<ContentElement>>,
    b: &im::Vector<Spanned<ContentElement>>,
) -> (r: bool)
    ensures
        r ==> element_items(*a) == element_items(*b),
{
    a.ptr_eq(b)
}

/// `im::Vector::ptr_eq`: where it finds that the two vectors share their
/// storage, they hold the same. Where it does not, they may hold the same or
/// not: what it finds depends on how the vectors were made.
#[verifier::external_body]
pub(crate) fn slots_shared(a: &im::Vector<DocumentSlot>, b: &im::Vector<DocumentSlot>) -> (r: bool)
    ensures
        r ==> slot_items(*a) == slot_items(*b),
{
    a.ptr_eq(b)
}

/// `im::Vector::new`: the new vector holds nothing.
#[verifier::external_body]
pub(crate) fn no_slots() -> (r: im::Vector<DocumentSlot>)
    ensures
        slot_items(r) == Seq::<SlotView>::empty(),
{
    im::Vector::new()
}

/// `im::Vector::len`: the number of slots that the vector holds.
#[verifier::external_body]
pub(crate) fn slot_count(v: &im::Vector<DocumentSlot>) -> (r: usize)
    ensures
        r == slot_items(*v).len(),
{
    v.len()
}

/// Indexing an `im::Vector`: the slot at the index, which has to exist.
#[verifier::external_body]
pub(crate) fn slot_at(v: &im::Vector<DocumentSlot>, i: usize) -> (r: &DocumentSlot)
    requires
        i < slot_items(*v).len(),
    ensures
        r@ == slot_items(*v)[i as int],
{
    &v[i]
}

/// `im::Vector::push_back`: the slot is put behind the last one. The length
/// has to stay within `usize`.
#[verifier::external_body]
pub(crate) fn push_slot(v: &mut im::Vector<DocumentSlot>, slot: DocumentSlot)
    requires
        slot_items(*old(v)).len() < usize::MAX,
    ensures
        slot_items(*final(v)) == slot_items(*old(v)).push(slot@),
{
    v.push_back(slot)
}

/// `im::Vector::set`: the element at the index, which has to exist, is
/// replaced.
#[verifier::external_body]
pub(crate) fn set_element(
    v: &mut im::Vector<Spanned<ContentElement>>,
    i: usize,
    element: Spanned<ContentElement>,
)
    requires
        i < element_items(*old(v)).len(),
    ensures
        element_items(*final(v)) == element_items(*old(v)).update(i as int, element@),
{
    v.set(i, element);
}

/// `im::Vector::set`: the slot at the index, which has to exist, is replaced.
#[verifier::external_body]
pub(crate) fn set_slot(v: &mut im::Vector<DocumentSlot>, i: usize, slot: DocumentSlot)
    requires
        i < slot_items(*old(v)).len(),
    ensures
        slot_items(*final(v)) == slot_items(*old(v)).update(i as int, slot@),
{
    v.set(i, slot);
}

/// `im::Vector::insert`: the slot is put before what stood at the index. The
/// index has to lie within the vector or at its end, and the length within
/// `usize`.
#[verifier::external_body]
pub(crate) fn insert_slot(v: &mut im::Vector<DocumentSlot>, i: usize, slot: DocumentSlot)
    requires
        i <= slot_items(*old(v)).len(),
        slot_items(*old(v)).len() < usize::MAX,
    ensures
        slot_items(*final(v)) == slot_items(*old(v)).insert(i as int, slot@),
{
    v.insert(i, slot)
}

/// `im::Vector::clone`: the copy holds what the vector holds.
#[verifier::external_body]
pub(crate) fn clone_slots(v: &im::Vector<DocumentSlot>) -> (r: im::Vector<DocumentSlot>)
    ensures
        slot_items(r) == slot_items(*v),
{
    v.clone()
}

} // verus!
