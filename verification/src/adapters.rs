//! From the difference of two documents to edits of their source.

use vstd::prelude::*;
use vstd::utf8::*;

use crate::diff::{Change, ChangeView, DocumentDiff};
use crate::document::{ContentElement, Document, DocumentView, ElementView};
use crate::schema::{Span, Spanned};
use crate::serializer;
use crate::serializer::{serialize_document, serialize_elements};
use crate::text;
use crate::text::{byte_len, get};
use crate::vector;
use crate::vector::{element_at, element_count};

verus! {

/// A replacement of a range of the source.
#[derive(Debug, Clone)]
pub struct SourceEdit {
    /// The range of bytes of the source to replace.
    pub span: Span,
    /// The text to put there.
    pub new_text: String,
}

/// The mathematical counterpart of [`SourceEdit`].
pub struct EditView {
    pub span: Span,
    pub new_text: Seq<char>,
}

impl View for SourceEdit {
    type V = EditView;

    open spec fn view(&self) -> EditView {
        EditView { span: self.span, new_text: self.new_text@ }
    }
}

/// The views of a list of edits.
pub open spec fn edit_views(edits: Seq<SourceEdit>) -> Seq<EditView> {
    edits.map_values(|e: SourceEdit| e@)
}

/// Whether a character is a space, a tab, a line feed or a carriage return.
pub open spec fn is_blank(c: char) -> bool {
    c == '\n' || c == '\r' || c == ' ' || c == '\t'
}

/// Whether a character is a space, a tab, a line feed or a carriage return.
fn char_is_blank(c: char) -> (r: bool)
    ensures
        r == is_blank(c),
{
    c == '\n' || c == '\r' || c == ' ' || c == '\t'
}

/// The blanks that `s` ends with.
pub open spec fn blank_tail(s: Seq<char>) -> Seq<char>
    decreases s.len(),
{
    if s.len() > 0 && is_blank(s.last()) {
        blank_tail(s.drop_last()).push(s.last())
    } else {
        seq![]
    }
}

/// Whether `s` holds nothing but blanks.
pub open spec fn all_blank(s: Seq<char>) -> bool {
    forall|k: int| 0 <= k < s.len() ==> is_blank(#[trigger] s[k])
}

/// The blanks at the end of the text between two byte offsets: none where there
/// is no such text.
pub open spec fn span_tail(src: Seq<char>, start: int, end: int) -> Seq<char> {
    if start >= end || end > encode_utf8(src).len() {
        seq![]
    } else {
        match text::byte_slice(src, start, end) {
            Some(slice) => blank_tail(slice),
            None => seq![],
        }
    }
}

/// Return the blanks at the end of `src[start..end]`.
///
/// Where the span covers `"# hello\n"` it is `"\n"`; where it covers `"hello"`
/// it is empty. The offsets have to be boundaries of characters.
pub fn trailing_whitespace_in_span(src: &str, start: usize, end: usize) -> (r: &str)
    requires
        start < end <= encode_utf8(src@).len() ==> is_char_boundary(
            encode_utf8(src@),
            start as int,
        ) && is_char_boundary(encode_utf8(src@), end as int),
    ensures
        r@ == span_tail(src@, start as int, end as int),
{
    if start >= end || end > byte_len(src) {
        proof {
            reveal_strlit("");
            assert(""@ =~= seq![]);
        }
        return "";
    }
    match get(src, start, end) {
        Some(slice) => {
            let v = text::chars_of(slice);
            let mut n: usize = v.len();
            proof {
                assert(v@.take(n as int) == v@);
                assert(blank_tail(v@) + v@.skip(n as int) =~= blank_tail(v@));
            }
            while n > 0 && char_is_blank(v[n - 1])
                invariant
                    n <= v.len(),
                    blank_tail(v@.take(n as int)) + v@.skip(n as int) == blank_tail(v@),
                decreases n,
            {
                proof {
                    let t = v@.take(n as int);
                    assert(t.drop_last() == v@.take(n - 1));
                    assert(blank_tail(t.drop_last()).push(t.last()) + v@.skip(n as int)
                        =~= blank_tail(t.drop_last()) + v@.skip(n - 1));
                }
                n -= 1;
            }
            proof {
                assert(blank_tail(v@.take(n as int)) =~= seq![]);
                assert(v@.skip(n as int) =~= blank_tail(v@));
                assert(v@.subrange(n as int, v@.len() as int) =~= v@.skip(n as int));
            }
            slice.substring_char(n, v.len())
        },
        None => {
            proof {
                reveal_strlit("");
                assert(""@ =~= seq![]);
            }
            ""
        },
    }
}

/// The text behind a byte offset.
pub open spec fn text_after(src: Seq<char>, pos: int) -> Seq<char> {
    decode_utf8(encode_utf8(src).subrange(pos, encode_utf8(src).len() as int))
}

/// Return true if everything at or behind `pos` in `src` is blank.
///
/// The offset has to be a boundary of characters.
pub fn all_whitespace_after(src: &str, pos: usize) -> (r: bool)
    requires
        pos <= encode_utf8(src@).len(),
        is_char_boundary(encode_utf8(src@), pos as int),
    ensures
        r == all_blank(text_after(src@, pos as int)),
{
    let ghost rest = text_after(src@, pos as int);
    proof {
        encode_utf8_valid_utf8(src@);
        is_char_boundary_start_end_of_seq(encode_utf8(src@));
    }
    match get(src, pos, byte_len(src)) {
        Some(slice) => {
            let v = text::chars_of(slice);
            let mut i: usize = 0;
            while i < v.len()
                invariant
                    i <= v.len(),
                    v@ == rest,
                    rest == text_after(src@, pos as int),
                    forall|k: int| 0 <= k < i ==> is_blank(#[trigger] rest[k]),
                decreases v.len() - i,
            {
                if !char_is_blank(v[i]) {
                    proof {
                        assert(!is_blank(rest[i as int]));
                    }
                    return false;
                }
                i += 1;
            }
            true
        },
        None => false,
    }
}

/// The edit that replaces the whole source by the canonical text of a document.
pub open spec fn full_edit(src: Seq<char>, after: DocumentView) -> EditView {
    EditView {
        span: Span { start: 0, end: encode_utf8(src).len() as usize },
        new_text: serializer::document_text(after),
    }
}

/// The text that stands for the elements `after` in the place of the elements
/// `before`: their markdown, and the blanks that the old elements ended with.
pub open spec fn replacement(
    src: Seq<char>,
    before: Seq<Spanned<ElementView>>,
    after: Seq<Spanned<ElementView>>,
) -> Seq<char> {
    let start = before[0].span.start as int;
    let end = before.last().span.end as int;
    let tail = span_tail(src, start, end);
    let body = text::joined(serializer::element_texts(after), "\n\n"@);
    if tail.len() > 0 {
        body + tail
    } else if end == encode_utf8(src).len() || all_blank(text_after(src, end)) {
        body + "\n"@
    } else {
        body
    }
}

/// The edit that puts the elements `after` in the place of the elements
/// `before`.
pub open spec fn elements_edit(
    src: Seq<char>,
    before: Seq<Spanned<ElementView>>,
    after: Seq<Spanned<ElementView>>,
) -> EditView {
    EditView {
        span: Span { start: before[0].span.start, end: before.last().span.end },
        new_text: replacement(src, before, after),
    }
}

/// Whether the elements stand in the source: the range that they cover begins
/// and ends at boundaries of characters, as far as the text there is read.
pub open spec fn stands_in(src: Seq<char>, before: Seq<Spanned<ElementView>>) -> bool {
    let start = before[0].span.start as int;
    let end = before.last().span.end as int;
    let bytes = encode_utf8(src);
    &&& start < end <= bytes.len() ==> is_char_boundary(bytes, start) && is_char_boundary(
        bytes,
        end,
    )
    &&& span_tail(src, start, end).len() == 0 && end != bytes.len() ==> end <= bytes.len()
        && is_char_boundary(bytes, end)
}

/// Build the edit that replaces the part of the source that `before_elems`
/// covers by the markdown of `after_elems`.
///
/// The range is that from the start of the first element to the end of the
/// last. The blanks that it ends with are kept.
fn make_elements_edit(
    src: &str,
    before_elems: &im::Vector<Spanned<ContentElement>>,
    after_elems: &im::Vector<Spanned<ContentElement>>,
) -> (r: SourceEdit)
    requires
        vector::element_items(*before_elems).len() > 0,
        stands_in(src@, vector::element_items(*before_elems)),
    ensures
        r@ == elements_edit(
            src@,
            vector::element_items(*before_elems),
            vector::element_items(*after_elems),
        ),
{
    let n = element_count(before_elems);
    let start: usize = element_at(before_elems, 0).span.start;
    let end: usize = element_at(before_elems, n - 1).span.end;
    let tail = trailing_whitespace_in_span(src, start, end);
    let mut new_text = serialize_elements(after_elems);
    if tail.is_empty() {
        if end == byte_len(src) || all_whitespace_after(src, end) {
            new_text.append("\n");
        }
    } else {
        new_text.append(tail);
    }
    proof {
        assert(new_text@ =~= replacement(
            src@,
            vector::element_items(*before_elems),
            vector::element_items(*after_elems),
        ));
    }
    SourceEdit { span: Span { start, end }, new_text }
}

/// Whether a change cannot be written as the replacement of a range: something
/// was added or removed, or there was nothing in its place before, or there is
/// nothing afterwards.
pub open spec fn needs_full(change: ChangeView) -> bool {
    match change {
        ChangeView::SlotChanged { before, after, .. } => before.len() == 0 || after.len() == 0,
        ChangeView::BodyChanged { before, after } => before.len() == 0 || after.len() == 0,
        _ => true,
    }
}

/// Whether some change cannot be written as the replacement of a range.
pub open spec fn any_needs_full(changes: Seq<ChangeView>) -> bool {
    exists|i: int| 0 <= i < changes.len() && needs_full(#[trigger] changes[i])
}

/// The edit that a change in a slot or in the body makes.
pub open spec fn change_edit(src: Seq<char>, change: ChangeView) -> EditView {
    match change {
        ChangeView::SlotChanged { before, after, .. } => elements_edit(src, before, after),
        ChangeView::BodyChanged { before, after } => elements_edit(src, before, after),
        _ => EditView { span: Span { start: 0, end: 0 }, new_text: seq![] },
    }
}

/// Whether the elements that a change replaces stand in the source.
pub open spec fn change_stands_in(src: Seq<char>, change: ChangeView) -> bool {
    match change {
        ChangeView::SlotChanged { before, .. } => stands_in(src, before),
        ChangeView::BodyChanged { before, .. } => stands_in(src, before),
        _ => true,
    }
}

/// The edits that the changes make: one for each change, or one for the whole
/// source where some change cannot be written as the replacement of a range.
pub open spec fn edits_for(src: Seq<char>, after: DocumentView, changes: Seq<ChangeView>) -> Seq<
    EditView,
> {
    if any_needs_full(changes) {
        seq![full_edit(src, after)]
    } else {
        changes.map_values(|c: ChangeView| change_edit(src, c))
    }
}

/// Whether a change cannot be written as the replacement of a range.
fn change_needs_full(change: &Change) -> (r: bool)
    ensures
        r == needs_full(change@),
{
    match change {
        Change::SlotChanged { before, after, .. } => element_count(before) == 0
            || element_count(after) == 0,
        Change::BodyChanged { before, after } => element_count(before) == 0 || element_count(
            after,
        ) == 0,
        _ => true,
    }
}

/// Convert a difference into edits of the source.
///
/// A change within a slot or the body replaces the range of the old elements.
/// Where a slot or the separator came or went, or a slot or the body was empty
/// before or is empty afterwards, the one edit replaces the whole source by the canonical text of the
/// later document. The edits are to be applied in reverse order. The elements
/// that are replaced have to stand in the source.
pub fn diff_to_source_edits(
    src: &str,
    _before: &Document,
    after: &Document,
    diff: &DocumentDiff,
) -> (r: Vec<SourceEdit>)
    requires
        any_needs_full(diff@) || forall|i: int|
            0 <= i < diff@.len() ==> change_stands_in(src@, #[trigger] diff@[i]),
    ensures
        edit_views(r@) == edits_for(src@, after@, diff@),
{
    let mut i: usize = 0;
    while i < diff.changes.len()
        invariant
            i <= diff.changes.len(),
            forall|k: int| 0 <= k < i ==> !needs_full(#[trigger] diff@[k]),
        decreases diff.changes.len() - i,
    {
        if change_needs_full(&diff.changes[i]) {
            proof {
                assert(needs_full(diff@[i as int]));
            }
            let mut edits: Vec<SourceEdit> = Vec::new();
            edits.push(
                SourceEdit {
                    span: Span { start: 0, end: byte_len(src) },
                    new_text: serialize_document(after),
                },
            );
            proof {
                assert(edit_views(edits@) =~= seq![full_edit(src@, after@)]);
            }
            return edits;
        }
        i += 1;
    }
    let mut edits: Vec<SourceEdit> = Vec::new();
    let mut j: usize = 0;
    while j < diff.changes.len()
        invariant
            j <= diff.changes.len(),
            edits.len() == j,
            forall|k: int|
                0 <= k < diff.changes.len() ==> !needs_full(#[trigger] diff@[k])
                    && change_stands_in(src@, diff@[k]),
            forall|k: int|
                0 <= k < j ==> (#[trigger] edits@[k])@ == change_edit(src@, diff@[k]),
        decreases diff.changes.len() - j,
    {
        proof {
            assert(!needs_full(diff@[j as int]));
        }
        match &diff.changes[j] {
            Change::SlotChanged { before, after, .. } => {
                edits.push(make_elements_edit(src, before, after));
            },
            Change::BodyChanged { before, after } => {
                edits.push(make_elements_edit(src, before, after));
            },
            _ => {},
        }
        j += 1;
    }
    proof {
        assert(edit_views(edits@) =~= diff@.map_values(|c: ChangeView| change_edit(src@, c)));
    }
    edits
}

/// A writer of whole documents.
#[derive(Debug, Clone, Copy)]
pub struct FullDocumentWriter;

impl FullDocumentWriter {
    /// What is written for a document: its canonical text.
    pub fn contents(&self, doc: &Document) -> (r: String)
        ensures
            r@ == serializer::document_text(doc@),
    {
        serialize_document(doc)
    }
}

/// An instruction to a browser that shows a document.
#[derive(Debug, Clone)]
pub enum DomPatch {
    ReplaceSlot { slot_name: String, html: String },
    InsertSlot { slot_name: String, html: String },
    RemoveSlot { slot_name: String },
    ReplaceBody { html: String },
    InsertSeparator,
    RemoveSeparator,
}

/// Convert a difference into instructions to a browser. There are none yet.
pub fn diff_to_dom_patches(_diff: &DocumentDiff) -> (r: Vec<DomPatch>)
    ensures
        r@.len() == 0,
{
    Vec::new()
}

/// A run of elements that changes into another is edited in its place: from where the run
/// begins to where it ends, with the later elements as the new text and the blanks that
/// the run ends with behind it.
pub proof fn law_changed_run_is_edited_in_place(
    src: Seq<char>,
    after: DocumentView,
    name: Seq<char>,
    old_run: Seq<Spanned<ElementView>>,
    new_run: Seq<Spanned<ElementView>>,
)
    requires
        old_run.len() > 0,
        new_run.len() > 0,
    ensures
        ({
            let slot = edits_for(
                src,
                after,
                seq![ChangeView::SlotChanged { name, before: old_run, after: new_run }],
            );
            let body = edits_for(
                src,
                after,
                seq![ChangeView::BodyChanged { before: old_run, after: new_run }],
            );
            &&& slot == body
            &&& slot.len() == 1
            &&& slot[0].span.start == old_run[0].span.start
            &&& slot[0].span.end == old_run.last().span.end
            &&& text::begins_with(
                slot[0].new_text,
                text::joined(serializer::element_texts(new_run), "\n\n"@),
            )
        }),
{
    let slot_change = seq![ChangeView::SlotChanged { name, before: old_run, after: new_run }];
    let body_change = seq![ChangeView::BodyChanged { before: old_run, after: new_run }];
    let slot = edits_for(src, after, slot_change);
    let body = edits_for(src, after, body_change);
    assert(!any_needs_full(slot_change));
    assert(!any_needs_full(body_change));
    let edit = elements_edit(src, old_run, new_run);
    assert(slot =~= seq![edit]);
    assert(body =~= seq![edit]);
    let words = text::joined(serializer::element_texts(new_run), "\n\n"@);
    assert(edit.new_text.take(words.len() as int) =~= words);
}

/// Any other change is made by writing the whole document anew, and it is the only edit.
pub proof fn law_other_changes_write_the_whole(
    src: Seq<char>,
    after: DocumentView,
    changes: Seq<ChangeView>,
    k: int,
)
    requires
        0 <= k < changes.len(),
        match changes[k] {
            ChangeView::SlotChanged { before, after, .. } => before.len() == 0 || after.len() == 0,
            ChangeView::BodyChanged { before, after } => before.len() == 0 || after.len() == 0,
            _ => true,
        },
        encode_utf8(src).len() <= usize::MAX,
    ensures
        edits_for(src, after, changes).len() == 1,
        edits_for(src, after, changes)[0].span.start == 0,
        edits_for(src, after, changes)[0].span.end == encode_utf8(src).len(),
        edits_for(src, after, changes)[0].new_text == serializer::document_text(after),
{
    assert(needs_full(changes[k]));
}

} // verus!
