//! What the edits of a source make of it.

use vstd::prelude::*;
use vstd::utf8::*;

use crate::adapters;
use crate::adapters::EditView;
use crate::diff;
use crate::diff::ChangeView;
use crate::document;
use crate::document::{DocumentView, ElementView, SlotView};
use crate::schema::Spanned;
use crate::serializer;
use crate::text;

verus! {

/// A source, as bytes, once one edit was applied to it.
pub open spec fn edited(bytes: Seq<u8>, edit: EditView) -> Seq<u8> {
    bytes.subrange(0, edit.span.start as int) + encode_utf8(edit.new_text) + bytes.subrange(
        edit.span.end as int,
        bytes.len() as int,
    )
}

/// A source, as bytes, once edits were applied to it, the last one first.
pub open spec fn all_edited(bytes: Seq<u8>, edits: Seq<EditView>) -> Seq<u8>
    decreases edits.len(),
{
    if edits.len() == 0 {
        bytes
    } else {
        all_edited(edited(bytes, edits.last()), edits.drop_last())
    }
}

/// The runs of elements that a document is made of: those of its slots, the
/// separator, the body.
pub open spec fn runs(doc: DocumentView) -> Seq<Seq<Spanned<ElementView>>> {
    doc.preamble.map_values(|s: SlotView| s.elements).push(document::separator_part(doc)).push(
        doc.body,
    )
}

/// The markdown of each element of runs.
pub open spec fn run_texts(rs: Seq<Seq<Spanned<ElementView>>>) -> Seq<Seq<char>>
    decreases rs.len(),
{
    if rs.len() == 0 {
        seq![]
    } else {
        run_texts(rs.drop_last()) + serializer::element_texts(rs.last())
    }
}

/// The text that stands before an element, where it follows the given ones.
pub open spec fn lead(parts: Seq<Seq<char>>) -> Seq<char> {
    if parts.len() == 0 {
        seq![]
    } else {
        text::joined(parts, "\n\n"@) + "\n\n"@
    }
}

/// The text that stands behind an element, where the given ones follow it.
pub open spec fn trail(parts: Seq<Seq<char>>) -> Seq<char> {
    if parts.len() == 0 {
        "\n"@
    } else {
        "\n\n"@ + text::joined(parts, "\n\n"@) + "\n"@
    }
}

/// The canonical text of elements with the given markdown.
pub open spec fn canonical(parts: Seq<Seq<char>>) -> Seq<char> {
    if parts.len() == 0 {
        seq![]
    } else {
        text::joined(parts, "\n\n"@) + "\n"@
    }
}

/// Whether the elements of a run stand where the canonical text of all runs has
/// them, with or without the line feed behind them. Where there is nothing but
/// blanks behind them, the line feed belongs to them. They do not end with a blank.
pub open spec fn run_stands(rs: Seq<Seq<Spanned<ElementView>>>, k: int) -> bool {
    let run = rs[k];
    let body = text::joined(serializer::element_texts(run), "\n\n"@);
    let start = encode_utf8(lead(run_texts(rs.take(k)))).len();
    let end = start + encode_utf8(body).len();
    run.len() > 0 ==> {
        &&& run[0].span.start == start
        &&& {
            ||| run.last().span.end == end + 1
            ||| run.last().span.end == end && !adapters::all_blank(
                trail(run_texts(rs.skip(k + 1))),
            )
        }
        &&& body.len() > 0
        &&& !adapters::is_blank(body.last())
    }
}

/// Whether a source is the canonical text of a document, with the elements of the
/// document where the text has them.
pub open spec fn is_canonical(src: Seq<char>, doc: DocumentView) -> bool {
    &&& src == serializer::document_text(doc)
    &&& forall|k: int|
        0 <= k < runs(doc).len() && k != doc.preamble.len() ==> #[trigger] run_stands(
            runs(doc),
            k,
        )
}

/// Whether two documents have the same slots, in the same order, each name once.
pub open spec fn same_slots(before: DocumentView, after: DocumentView) -> bool {
    &&& before.preamble.len() == after.preamble.len()
    &&& forall|k: int|
        0 <= k < before.preamble.len() ==> (#[trigger] before.preamble[k]).name
            == after.preamble[k].name
    &&& diff::distinct_names(before.preamble)
}

/// The bytes of two texts are those of the first and then those of the second.
pub proof fn lemma_encode_concat(a: Seq<char>, b: Seq<char>)
    ensures
        encode_utf8(a + b) == encode_utf8(a) + encode_utf8(b),
    decreases a.len(),
{
    if a.len() == 0 {
        assert(a + b =~= b);
        assert(encode_utf8(a) + encode_utf8(b) =~= encode_utf8(b));
    } else {
        lemma_encode_concat(a.drop_first(), b);
        assert((a + b).drop_first() =~= a.drop_first() + b);
        assert(encode_utf8(a + b) =~= encode_utf8(a) + encode_utf8(b));
    }
}

/// The end of one text is a boundary of characters where another follows it.
proof fn lemma_boundary_between(a: Seq<char>, b: Seq<char>)
    ensures
        is_char_boundary(encode_utf8(a + b), encode_utf8(a).len() as int),
    decreases a.len(),
{
    encode_utf8_valid_utf8(a + b);
    if a.len() > 0 {
        let bytes = encode_utf8(a + b);
        encode_utf8_first_scalar(a + b);
        assert((a + b).drop_first() =~= a.drop_first() + b);
        assert(pop_first_scalar(bytes) =~= encode_utf8(a.drop_first() + b));
        lemma_boundary_between(a.drop_first(), b);
        lemma_encode_concat(a, b);
    }
}

/// The text between the ends of two texts is the second.
proof fn lemma_slice_between(a: Seq<char>, b: Seq<char>, c: Seq<char>)
    ensures
        text::byte_slice(
            a + b + c,
            encode_utf8(a).len() as int,
            (encode_utf8(a).len() + encode_utf8(b).len()) as int,
        ) == Some(b),
        adapters::text_after(a + b + c, (encode_utf8(a).len() + encode_utf8(b).len()) as int) == c,
        encode_utf8(a + b + c).len() == encode_utf8(a).len() + encode_utf8(b).len() + encode_utf8(
            c,
        ).len(),
{
    let whole = a + b + c;
    let from = encode_utf8(a).len() as int;
    let to = from + encode_utf8(b).len();
    lemma_encode_concat(a, b);
    lemma_encode_concat(a + b, c);
    lemma_boundary_between(a + b, c);
    assert(whole =~= a + (b + c));
    lemma_boundary_between(a, b + c);
    let bytes = encode_utf8(whole);
    assert(bytes.subrange(from, to) =~= encode_utf8(b));
    assert(bytes.subrange(to, bytes.len() as int) =~= encode_utf8(c));
    encode_utf8_decode_utf8(b);
    encode_utf8_decode_utf8(c);
}

/// Joining two lists is joining each of them, and then the two.
proof fn lemma_joined_concat(a: Seq<Seq<char>>, b: Seq<Seq<char>>, sep: Seq<char>)
    requires
        a.len() > 0,
        b.len() > 0,
    ensures
        text::joined(a + b, sep) == text::joined(a, sep) + sep + text::joined(b, sep),
    decreases b.len(),
{
    assert((a + b).drop_last() =~= a + b.drop_last());
    assert((a + b).last() == b.last());
    if b.len() == 1 {
        assert(a + b.drop_last() =~= a);
    } else {
        lemma_joined_concat(a, b.drop_last(), sep);
        assert(text::joined(a + b, sep) =~= text::joined(a, sep) + sep + text::joined(b, sep));
    }
}

/// The canonical text of elements is what stands before some of them, these, and
/// what stands behind them.
proof fn lemma_canonical_parts(x: Seq<Seq<char>>, b: Seq<Seq<char>>, y: Seq<Seq<char>>)
    requires
        b.len() > 0,
    ensures
        canonical(x + b + y) == lead(x) + text::joined(b, "\n\n"@) + trail(y),
{
    let sep = "\n\n"@;
    let body = text::joined(b, sep);
    if x.len() == 0 {
        assert(x + b =~= b);
        assert(lead(x) + body =~= text::joined(x + b, sep));
    } else {
        lemma_joined_concat(x, b, sep);
        assert(lead(x) + body =~= text::joined(x + b, sep));
    }
    if y.len() == 0 {
        assert(x + b + y =~= x + b);
        assert(canonical(x + b + y) =~= lead(x) + body + trail(y));
    } else {
        lemma_joined_concat(x + b, y, sep);
        assert(canonical(x + b + y) =~= lead(x) + body + trail(y));
    }
}

/// The texts of runs are those of the first and then those of the others.
proof fn lemma_run_texts_concat(
    a: Seq<Seq<Spanned<ElementView>>>,
    b: Seq<Seq<Spanned<ElementView>>>,
)
    ensures
        run_texts(a + b) == run_texts(a) + run_texts(b),
    decreases b.len(),
{
    if b.len() == 0 {
        assert(a + b =~= a);
        assert(run_texts(a) + run_texts(b) =~= run_texts(a));
    } else {
        lemma_run_texts_concat(a, b.drop_last());
        assert((a + b).drop_last() =~= a + b.drop_last());
        assert((a + b).last() == b.last());
        assert(run_texts(a + b) =~= run_texts(a) + run_texts(b));
    }
}

/// The texts of one run.
proof fn lemma_run_texts_one(run: Seq<Spanned<ElementView>>)
    ensures
        run_texts(seq![run]) == serializer::element_texts(run),
{
    assert(seq![run].drop_last() =~= seq![]);
    assert(run_texts(seq![run].drop_last()) =~= seq![]);
    assert(run_texts(seq![run]) =~= serializer::element_texts(run));
}

/// Around a run stand the texts of those before it and of those behind it.
proof fn lemma_run_texts_around(rs: Seq<Seq<Spanned<ElementView>>>, k: int)
    requires
        0 <= k < rs.len(),
    ensures
        run_texts(rs) == run_texts(rs.take(k)) + serializer::element_texts(rs[k]) + run_texts(
            rs.skip(k + 1),
        ),
{
    assert(rs =~= rs.take(k) + seq![rs[k]] + rs.skip(k + 1));
    lemma_run_texts_concat(rs.take(k) + seq![rs[k]], rs.skip(k + 1));
    lemma_run_texts_concat(rs.take(k), seq![rs[k]]);
    lemma_run_texts_one(rs[k]);
}

/// The edit of a run that stands where the canonical text has it.
proof fn lemma_run_edit(
    src: Seq<char>,
    rs: Seq<Seq<Spanned<ElementView>>>,
    k: int,
    after: Seq<Spanned<ElementView>>,
)
    requires
        0 <= k < rs.len(),
        rs[k].len() > 0,
        after.len() > 0,
        run_stands(rs, k),
        src == canonical(run_texts(rs)),
    ensures
        ({
            let edit = adapters::elements_edit(src, rs[k], after);
            let old_body = text::joined(serializer::element_texts(rs[k]), "\n\n"@);
            let new_body = text::joined(serializer::element_texts(after), "\n\n"@);
            let start = encode_utf8(lead(run_texts(rs.take(k)))).len();
            let end = start + encode_utf8(old_body).len();
            &&& edit.span.start == start
            &&& {
                ||| edit.span.end == end + 1 && edit.new_text == new_body + "\n"@
                ||| edit.span.end == end && edit.new_text == new_body
            }
        }),
{
    let run = rs[k];
    let x = run_texts(rs.take(k));
    let y = run_texts(rs.skip(k + 1));
    let b = serializer::element_texts(run);
    let body = text::joined(b, "\n\n"@);
    let start = encode_utf8(lead(x)).len() as int;
    let end = start + encode_utf8(body).len();
    lemma_run_texts_around(rs, k);
    lemma_canonical_parts(x, b, y);
    reveal_strlit("\n");
    reveal_strlit("\n\n");
    let line = "\n"@;
    let rest = trail(y).skip(1);
    assert(trail(y) =~= line + rest);
    lemma_encode_concat(seq![body[0]], body.skip(1));
    encode_utf8_first_scalar(seq![body[0]]);
    assert(seq![body[0]] + body.skip(1) =~= body);
    if run.last().span.end == end + 1 {
        lemma_encode_concat(body, line);
        is_ascii_chars_encode_utf8(line);
        assert(src =~= lead(x) + (body + line) + rest);
        lemma_slice_between(lead(x), body + line, rest);
        let slice = body + line;
        assert(slice.drop_last() =~= body);
        assert(adapters::blank_tail(body) =~= seq![]);
        assert(adapters::blank_tail(slice) =~= line);
    } else {
        lemma_slice_between(lead(x), body, trail(y));
        assert(adapters::blank_tail(body) =~= seq![]);
        lemma_encode_concat(line, rest);
        is_ascii_chars_encode_utf8(line);
    }
}

/// Applying the edit of a run to a text in which only what stands behind the run may
/// have changed puts the new elements in the place of the old ones.
proof fn lemma_run_edited(
    src: Seq<char>,
    rs: Seq<Seq<Spanned<ElementView>>>,
    k: int,
    after: Seq<Spanned<ElementView>>,
    behind: Seq<Seq<char>>,
)
    requires
        0 <= k < rs.len(),
        rs[k].len() > 0,
        after.len() > 0,
        run_stands(rs, k),
        src == canonical(run_texts(rs)),
    ensures
        ({
            let x = run_texts(rs.take(k));
            let b = serializer::element_texts(rs[k]);
            let a = serializer::element_texts(after);
            edited(
                encode_utf8(canonical(x + b + behind)),
                adapters::elements_edit(src, rs[k], after),
            ) == encode_utf8(canonical(x + a + behind))
        }),
{
    let x = run_texts(rs.take(k));
    let b = serializer::element_texts(rs[k]);
    let a = serializer::element_texts(after);
    let old_body = text::joined(b, "\n\n"@);
    let new_body = text::joined(a, "\n\n"@);
    let edit = adapters::elements_edit(src, rs[k], after);
    lemma_run_edit(src, rs, k, after);
    lemma_canonical_parts(x, b, behind);
    lemma_canonical_parts(x, a, behind);
    reveal_strlit("\n");
    reveal_strlit("\n\n");
    let line = "\n"@;
    let rest = trail(behind).skip(1);
    assert(trail(behind) =~= line + rest);
    is_ascii_chars_encode_utf8(line);
    lemma_encode_concat(line, rest);
    let head = encode_utf8(lead(x));
    let tail = encode_utf8(trail(behind));
    lemma_encode_concat(lead(x) + old_body, trail(behind));
    lemma_encode_concat(lead(x), old_body);
    lemma_encode_concat(lead(x) + new_body, trail(behind));
    lemma_encode_concat(lead(x), new_body);
    lemma_encode_concat(new_body, line);
    let bytes = encode_utf8(canonical(x + b + behind));
    assert(bytes =~= head + encode_utf8(old_body) + tail);
    assert(encode_utf8(canonical(x + a + behind)) =~= head + encode_utf8(new_body) + tail);
    assert(bytes.subrange(0, edit.span.start as int) =~= head);
    if edit.span.end == head.len() + encode_utf8(old_body).len() {
        assert(bytes.subrange(edit.span.end as int, bytes.len() as int) =~= tail);
    } else {
        assert(bytes.subrange(edit.span.end as int, bytes.len() as int) =~= encode_utf8(rest));
    }
    assert(edited(bytes, edit) =~= head + encode_utf8(new_body) + tail);
}

/// The edits that the first of the changed runs make.
spec fn run_edits(
    src: Seq<char>,
    before: Seq<Seq<Spanned<ElementView>>>,
    after: Seq<Seq<Spanned<ElementView>>>,
    n: int,
) -> Seq<EditView>
    decreases n,
{
    if n <= 0 {
        seq![]
    } else if diff::same_nodes(before[n - 1], after[n - 1]) {
        run_edits(src, before, after, n - 1)
    } else {
        run_edits(src, before, after, n - 1).push(
            adapters::elements_edit(src, before[n - 1], after[n - 1]),
        )
    }
}

/// The same elements have the same markdown.
proof fn lemma_same_texts(a: Seq<Spanned<ElementView>>, b: Seq<Spanned<ElementView>>)
    requires
        diff::same_nodes(a, b),
    ensures
        serializer::element_texts(a) == serializer::element_texts(b),
{
    assert(serializer::element_texts(a) =~= serializer::element_texts(b));
}

/// Applying the edits of the first changed runs, the last one first, to a text in
/// which the others are new already makes all of them new.
proof fn lemma_runs_edited(
    src: Seq<char>,
    before: Seq<Seq<Spanned<ElementView>>>,
    after: Seq<Seq<Spanned<ElementView>>>,
    n: int,
)
    requires
        0 <= n <= before.len(),
        before.len() == after.len(),
        src == canonical(run_texts(before)),
        forall|k: int|
            0 <= k < before.len() ==> diff::same_nodes(#[trigger] before[k], after[k]) || (
            before[k].len() > 0 && after[k].len() > 0 && run_stands(before, k)),
    ensures
        all_edited(
            encode_utf8(canonical(run_texts(before.take(n) + after.skip(n)))),
            run_edits(src, before, after, n),
        ) == encode_utf8(canonical(run_texts(after))),
    decreases n,
{
    if n == 0 {
        assert(before.take(0) + after.skip(0) =~= after);
    } else {
        let k = n - 1;
        let x = run_texts(before.take(k));
        let b = serializer::element_texts(before[k]);
        let a = serializer::element_texts(after[k]);
        let behind = run_texts(after.skip(n));
        let now = before.take(n) + after.skip(n);
        let next = before.take(k) + after.skip(k);
        lemma_run_texts_around(now, k);
        assert(now.take(k) =~= before.take(k));
        assert(now.skip(k + 1) =~= after.skip(n));
        lemma_run_texts_around(next, k);
        assert(next.take(k) =~= before.take(k));
        assert(next.skip(k + 1) =~= after.skip(n));
        lemma_runs_edited(src, before, after, k);
        if diff::same_nodes(before[k], after[k]) {
            lemma_same_texts(before[k], after[k]);
        } else {
            lemma_run_edited(src, before, k, after[k], behind);
            let edits = run_edits(src, before, after, n);
            assert(edits.drop_last() =~= run_edits(src, before, after, k));
        }
    }
}

/// The texts of the runs of slots are those of the elements of the slots.
proof fn lemma_slot_texts(slots: Seq<SlotView>)
    ensures
        run_texts(slots.map_values(|s: SlotView| s.elements)) == serializer::element_texts(
            document::slots_flat(slots),
        ),
    decreases slots.len(),
{
    let rs = slots.map_values(|s: SlotView| s.elements);
    if slots.len() == 0 {
        assert(run_texts(rs) =~= serializer::element_texts(document::slots_flat(slots)));
    } else {
        let front = slots.drop_last();
        lemma_slot_texts(front);
        assert(rs.drop_last() =~= front.map_values(|s: SlotView| s.elements));
        assert(run_texts(rs) =~= serializer::element_texts(document::slots_flat(slots)));
    }
}

/// The canonical text of a document is that of its runs.
proof fn lemma_document_runs(doc: DocumentView)
    ensures
        canonical(run_texts(runs(doc))) == serializer::document_text(doc),
{
    let slots = doc.preamble.map_values(|s: SlotView| s.elements);
    let all = runs(doc);
    lemma_slot_texts(doc.preamble);
    assert(all.drop_last() =~= slots.push(document::separator_part(doc)));
    assert(all.drop_last().drop_last() =~= slots);
    assert(all.last() == doc.body);
    assert(all.drop_last().last() == document::separator_part(doc));
    assert(run_texts(all.drop_last()) == run_texts(slots) + serializer::element_texts(
        document::separator_part(doc),
    ));
    assert(run_texts(all) =~= serializer::element_texts(document::document_flat(doc)));
}

/// The changes of the first slots make the edits of the first runs.
proof fn lemma_slot_edits(src: Seq<char>, before: DocumentView, after: DocumentView, n: int)
    requires
        same_slots(before, after),
        0 <= n <= after.preamble.len(),
    ensures
        diff::slot_changes(before.preamble, after.preamble.take(n)).map_values(
            |c: ChangeView| adapters::change_edit(src, c),
        ) == run_edits(src, runs(before), runs(after), n),
    decreases n,
{
    let change = |c: ChangeView| adapters::change_edit(src, c);
    let taken = after.preamble.take(n);
    if n == 0 {
        assert(diff::slot_changes(before.preamble, taken).map_values(change) =~= seq![]);
    } else {
        let k = n - 1;
        lemma_slot_edits(src, before, after, k);
        assert(taken.drop_last() =~= after.preamble.take(k));
        assert(taken.last() == after.preamble[k]);
        assert(before.preamble[k].name == after.preamble[k].name);
        assert forall|i: int| 0 <= i < k implies (#[trigger] before.preamble[i]).name
            != after.preamble[k].name by {
            assert(before.preamble[i].name != before.preamble[k].name);
        }
        diff::lemma_slot_index_is(before.preamble, after.preamble[k].name, k);
        assert(runs(before)[k] == before.preamble[k].elements);
        assert(runs(after)[k] == after.preamble[k].elements);
        let rest = diff::slot_changes(before.preamble, after.preamble.take(k));
        let last = diff::slot_change(before.preamble, after.preamble[k]);
        assert((rest + last).map_values(change) =~= rest.map_values(change) + last.map_values(
            change,
        ));
        if diff::same_nodes(before.preamble[k].elements, after.preamble[k].elements) {
            assert((rest + last) =~= rest);
        } else {
            assert(last.map_values(change) =~= seq![
                adapters::elements_edit(src, runs(before)[k], runs(after)[k]),
            ]);
            assert((rest + last).map_values(change) =~= rest.map_values(change).push(
                adapters::elements_edit(src, runs(before)[k], runs(after)[k]),
            ));
        }
    }
}

/// No slot is gone where the slots are the same.
proof fn lemma_no_removals(before: DocumentView, after: DocumentView, n: int)
    requires
        same_slots(before, after),
        0 <= n <= before.preamble.len(),
    ensures
        diff::slot_removals(before.preamble.take(n), after.preamble) == Seq::<ChangeView>::empty(),
    decreases n,
{
    let taken = before.preamble.take(n);
    if n > 0 {
        let k = n - 1;
        lemma_no_removals(before, after, k);
        assert(taken.drop_last() =~= before.preamble.take(k));
        assert(taken.last() == before.preamble[k]);
        let name = before.preamble[k].name;
        assert(after.preamble[k].name == name);
        diff::lemma_slot_index(after.preamble, name);
        assert(diff::has_slot(after.preamble, name));
        assert(diff::slot_removals(taken, after.preamble) =~= seq![]);
    } else {
        assert(diff::slot_removals(taken, after.preamble) =~= seq![]);
    }
}

/// The changes of the slots of the same documents, where they are compared or not.
proof fn lemma_preamble_changes(before: DocumentView, after: DocumentView, shared: bool)
    requires
        same_slots(before, after),
        shared ==> before.preamble == after.preamble,
    ensures
        diff::preamble_changes(before, after, shared) == diff::slot_changes(
            before.preamble,
            after.preamble,
        ),
{
    let changes = diff::slot_changes(before.preamble, after.preamble);
    lemma_no_removals(before, after, before.preamble.len() as int);
    assert(before.preamble.take(before.preamble.len() as int) =~= before.preamble);
    if shared {
        lemma_unchanged_slots(before, after, after.preamble.len() as int);
        assert(after.preamble.take(after.preamble.len() as int) =~= after.preamble);
    }
    assert(diff::preamble_changes(before, after, shared) =~= changes);
}

/// Slots that are the same did not change.
proof fn lemma_unchanged_slots(before: DocumentView, after: DocumentView, n: int)
    requires
        same_slots(before, after),
        before.preamble == after.preamble,
        0 <= n <= after.preamble.len(),
    ensures
        diff::slot_changes(before.preamble, after.preamble.take(n)) == Seq::<ChangeView>::empty(),
    decreases n,
{
    let taken = after.preamble.take(n);
    if n > 0 {
        let k = n - 1;
        lemma_unchanged_slots(before, after, k);
        assert(taken.drop_last() =~= after.preamble.take(k));
        assert(taken.last() == after.preamble[k]);
        assert forall|i: int| 0 <= i < k implies (#[trigger] before.preamble[i]).name
            != after.preamble[k].name by {
            assert(before.preamble[i].name != before.preamble[k].name);
        }
        diff::lemma_slot_index_is(before.preamble, after.preamble[k].name, k);
        assert(diff::slot_changes(before.preamble, taken) =~= seq![]);
    } else {
        assert(diff::slot_changes(before.preamble, taken) =~= seq![]);
    }
}

/// Where the slots are the same and nothing needs the whole source to be replaced,
/// the edits are those of the changed runs.
proof fn lemma_edits_of_runs(src: Seq<char>, before: DocumentView, after: DocumentView, shared: bool)
    requires
        same_slots(before, after),
        shared ==> before.preamble == after.preamble,
        !adapters::any_needs_full(diff::changes_between(before, after, shared)),
    ensures
        before.has_separator == after.has_separator,
        adapters::edits_for(src, after, diff::changes_between(before, after, shared)) == run_edits(
            src,
            runs(before),
            runs(after),
            runs(before).len() as int,
        ),
{
    let change = |c: ChangeView| adapters::change_edit(src, c);
    let changes = diff::changes_between(before, after, shared);
    let n = before.preamble.len() as int;
    let slots = diff::slot_changes(before.preamble, after.preamble);
    let body = diff::body_change(before, after);
    if before.has_separator != after.has_separator {
        assert(adapters::needs_full(changes[0]));
    }
    lemma_preamble_changes(before, after, shared);
    assert(changes =~= slots + body);
    lemma_slot_edits(src, before, after, n);
    assert(after.preamble.take(n) =~= after.preamble);
    assert(changes.map_values(change) =~= slots.map_values(change) + body.map_values(change));
    let b = runs(before);
    let a = runs(after);
    assert(b[n] == document::separator_part(before) && a[n] == document::separator_part(after));
    assert(diff::same_nodes(b[n], a[n]));
    assert(b[n + 1] == before.body && a[n + 1] == after.body);
    assert(run_edits(src, b, a, n + 1) == run_edits(src, b, a, n));
    if diff::same_nodes(before.body, after.body) {
        assert(changes.map_values(change) =~= slots.map_values(change));
    } else {
        assert(body.map_values(change) =~= seq![
            adapters::elements_edit(src, before.body, after.body),
        ]);
        assert(changes.map_values(change) =~= slots.map_values(change).push(
            adapters::elements_edit(src, before.body, after.body),
        ));
    }
}

/// Whether a change puts one run in the place of another.
spec fn is_change_of(
    change: ChangeView,
    before: Seq<Spanned<ElementView>>,
    after: Seq<Spanned<ElementView>>,
) -> bool {
    match change {
        ChangeView::SlotChanged { before: b, after: a, .. } => b == before && a == after,
        ChangeView::BodyChanged { before: b, after: a } => b == before && a == after,
        _ => false,
    }
}

/// Every change of a run is one of the changes between the documents.
proof fn lemma_changed_run(
    before: DocumentView,
    after: DocumentView,
    shared: bool,
    k: int,
) -> (i: int)
    requires
        same_slots(before, after),
        shared ==> before.preamble == after.preamble,
        before.has_separator == after.has_separator,
        0 <= k < runs(before).len(),
        !diff::same_nodes(runs(before)[k], runs(after)[k]),
    ensures
        k != before.preamble.len(),
        0 <= i < diff::changes_between(before, after, shared).len(),
        is_change_of(
            diff::changes_between(before, after, shared)[i],
            runs(before)[k],
            runs(after)[k],
        ),
{
    let changes = diff::changes_between(before, after, shared);
    let n = before.preamble.len() as int;
    let slots = diff::slot_changes(before.preamble, after.preamble);
    let body = diff::body_change(before, after);
    lemma_preamble_changes(before, after, shared);
    assert(changes =~= slots + body);
    assert(runs(before)[n] == document::separator_part(before));
    assert(runs(after)[n] == document::separator_part(after));
    assert(diff::same_nodes(runs(before)[n], runs(after)[n]));
    if k == n + 1 {
        assert(runs(before)[k] == before.body && runs(after)[k] == after.body);
        assert(changes[slots.len() as int] == body[0]);
        slots.len() as int
    } else {
        assert(after.preamble.take(n) =~= after.preamble);
        let i = lemma_changed_slot(before, after, n, k);
        assert(changes[i] == slots[i]);
        i
    }
}

/// Every slot that changed is among the changes of the slots.
proof fn lemma_changed_slot(before: DocumentView, after: DocumentView, n: int, k: int) -> (i: int)
    requires
        same_slots(before, after),
        0 <= k < n <= after.preamble.len(),
        !diff::same_nodes(runs(before)[k], runs(after)[k]),
    ensures
        ({
            let changes = diff::slot_changes(before.preamble, after.preamble.take(n));
            &&& 0 <= i < changes.len()
            &&& is_change_of(changes[i], runs(before)[k], runs(after)[k])
        }),
    decreases n,
{
    let taken = after.preamble.take(n);
    assert(taken.drop_last() =~= after.preamble.take(n - 1));
    assert(taken.last() == after.preamble[n - 1]);
    let rest = diff::slot_changes(before.preamble, after.preamble.take(n - 1));
    if k < n - 1 {
        let i = lemma_changed_slot(before, after, n - 1, k);
        assert(diff::slot_changes(before.preamble, taken)[i] == rest[i]);
        i
    } else {
        assert(before.preamble[k].name == after.preamble[k].name);
        assert forall|i: int| 0 <= i < k implies (#[trigger] before.preamble[i]).name
            != after.preamble[k].name by {
            assert(before.preamble[i].name != before.preamble[k].name);
        }
        diff::lemma_slot_index_is(before.preamble, after.preamble[k].name, k);
        assert(runs(before)[k] == before.preamble[k].elements);
        assert(runs(after)[k] == after.preamble[k].elements);
        rest.len() as int
    }
}

/// The edits that are made of the changes between two documents, applied to the
/// source with the last one first, give the canonical text of the later document.
/// That holds of every source where the whole of it is replaced. Where only the
/// places that changed are, the source has to be the canonical text of the earlier
/// document, and the documents have the same slots.
pub proof fn law_edits_give_the_later_text(
    src: Seq<char>,
    before: DocumentView,
    after: DocumentView,
    shared: bool,
)
    requires
        encode_utf8(src).len() <= usize::MAX,
        shared ==> before.preamble == after.preamble,
        adapters::any_needs_full(diff::changes_between(before, after, shared)) || {
            &&& is_canonical(src, before)
            &&& same_slots(before, after)
        },
    ensures
        all_edited(
            encode_utf8(src),
            adapters::edits_for(src, after, diff::changes_between(before, after, shared)),
        ) == encode_utf8(serializer::document_text(after)),
{
    let changes = diff::changes_between(before, after, shared);
    let bytes = encode_utf8(src);
    if adapters::any_needs_full(changes) {
        let edit = adapters::full_edit(src, after);
        let edits = adapters::edits_for(src, after, changes);
        assert(edits.drop_last() =~= seq![]);
        assert(edited(bytes, edit) =~= encode_utf8(edit.new_text));
        assert(all_edited(edited(bytes, edit), edits.drop_last()) == edited(bytes, edit));
    } else {
        let b = runs(before);
        let a = runs(after);
        let n = b.len() as int;
        lemma_edits_of_runs(src, before, after, shared);
        lemma_document_runs(before);
        lemma_document_runs(after);
        assert forall|k: int| 0 <= k < b.len() implies diff::same_nodes(#[trigger] b[k], a[k]) || (
        b[k].len() > 0 && a[k].len() > 0 && run_stands(b, k)) by {
            if !diff::same_nodes(b[k], a[k]) {
                let i = lemma_changed_run(before, after, shared, k);
                assert(!adapters::needs_full(changes[i]));
            }
        }
        lemma_runs_edited(src, b, a, n);
        assert(b.take(n) + a.skip(n) =~= b);
    }
}

/// Whether edits lie within a source of the given size, and each behind the one before
/// it.
pub open spec fn are_apart(edits: Seq<EditView>, size: int) -> bool {
    &&& forall|i: int|
        0 <= i < edits.len() ==> (#[trigger] edits[i]).span.start <= edits[i].span.end <= size
    &&& forall|i: int, j: int|
        0 <= i < j < edits.len() ==> (#[trigger] edits[i]).span.end <= (
        #[trigger] edits[j]).span.start
}

/// What stands before an element is longer where more elements come before it: by them
/// and two line feeds at least.
proof fn lemma_lead_grows(x: Seq<Seq<char>>, b: Seq<Seq<char>>)
    ensures
        b.len() == 0 ==> lead(x + b) == lead(x),
        b.len() > 0 ==> encode_utf8(lead(x + b)).len() == encode_utf8(lead(x)).len() + encode_utf8(
            text::joined(b, "\n\n"@),
        ).len() + 2,
{
    reveal_strlit("\n");
    reveal_strlit("\n\n");
    if b.len() == 0 {
        assert(x + b =~= x);
    } else {
        let none: Seq<Seq<char>> = seq![];
        let body = text::joined(b, "\n\n"@);
        lemma_canonical_parts(x, b, none);
        assert(x + b + none =~= x + b);
        assert("\n\n"@ =~= "\n"@ + "\n"@);
        assert(lead(x + b) =~= canonical(x + b) + "\n"@);
        assert(lead(x + b) =~= lead(x) + body + "\n\n"@);
        lemma_encode_concat(lead(x) + body, "\n\n"@);
        lemma_encode_concat(lead(x), body);
        is_ascii_chars_encode_utf8("\n\n"@);
    }
}

/// The edits of the first changed runs lie within the source and before the runs that
/// follow, each behind the one before it.
proof fn lemma_run_edits_apart(
    src: Seq<char>,
    before: Seq<Seq<Spanned<ElementView>>>,
    after: Seq<Seq<Spanned<ElementView>>>,
    n: int,
)
    requires
        0 <= n <= before.len(),
        before.len() == after.len(),
        src == canonical(run_texts(before)),
        forall|k: int|
            0 <= k < before.len() ==> diff::same_nodes(#[trigger] before[k], after[k]) || (
            before[k].len() > 0 && after[k].len() > 0 && run_stands(before, k)),
    ensures
        are_apart(run_edits(src, before, after, n), encode_utf8(src).len() as int),
        forall|i: int|
            0 <= i < run_edits(src, before, after, n).len() ==> (#[trigger] run_edits(
                src,
                before,
                after,
                n,
            )[i]).span.end <= encode_utf8(lead(run_texts(before.take(n)))).len(),
    decreases n,
{
    let edits = run_edits(src, before, after, n);
    if n > 0 {
        let k = n - 1;
        lemma_run_edits_apart(src, before, after, k);
        let rest = run_edits(src, before, after, k);
        let x = run_texts(before.take(k));
        let b = serializer::element_texts(before[k]);
        assert(before.take(n).drop_last() =~= before.take(k));
        assert(before.take(n).last() == before[k]);
        assert(run_texts(before.take(n)) == x + b);
        lemma_lead_grows(x, b);
        if !diff::same_nodes(before[k], after[k]) {
            let body = text::joined(b, "\n\n"@);
            let behind = run_texts(before.skip(k + 1));
            assert(b.len() == before[k].len());
            lemma_run_texts_around(before, k);
            lemma_canonical_parts(x, b, behind);
            reveal_strlit("\n");
            reveal_strlit("\n\n");
            assert(trail(behind) =~= "\n"@ + trail(behind).skip(1));
            lemma_encode_concat(lead(x) + body, trail(behind));
            lemma_encode_concat(lead(x), body);
            lemma_encode_concat("\n"@, trail(behind).skip(1));
            is_ascii_chars_encode_utf8("\n"@);
            let edit = adapters::elements_edit(src, before[k], after[k]);
            assert(edits == rest.push(edit));
            assert(run_stands(before, k));
            assert forall|i: int| 0 <= i < edits.len() implies (#[trigger] edits[i]).span.start
                <= edits[i].span.end <= encode_utf8(src).len() && edits[i].span.end <= encode_utf8(
                lead(run_texts(before.take(n))),
            ).len() by {
                if i < rest.len() {
                    assert(edits[i] == rest[i]);
                }
            }
            assert forall|i: int, j: int| 0 <= i < j < edits.len() implies (
            #[trigger] edits[i]).span.end <= (#[trigger] edits[j]).span.start by {
                assert(edits[i] == rest[i]);
                if j < rest.len() {
                    assert(edits[j] == rest[j]);
                }
            }
        }
    }
}

/// The edits that are made of the changes between two documents lie within the source,
/// each behind the one before it. Where only the places that changed are replaced, the
/// source has to be the canonical text of the earlier document, and the documents have
/// the same slots.
pub proof fn law_edits_are_apart(
    src: Seq<char>,
    before: DocumentView,
    after: DocumentView,
    shared: bool,
)
    requires
        encode_utf8(src).len() <= usize::MAX,
        shared ==> before.preamble == after.preamble,
        adapters::any_needs_full(diff::changes_between(before, after, shared)) || {
            &&& is_canonical(src, before)
            &&& same_slots(before, after)
        },
    ensures
        are_apart(
            adapters::edits_for(src, after, diff::changes_between(before, after, shared)),
            encode_utf8(src).len() as int,
        ),
{
    let changes = diff::changes_between(before, after, shared);
    if !adapters::any_needs_full(changes) {
        let b = runs(before);
        let a = runs(after);
        lemma_edits_of_runs(src, before, after, shared);
        lemma_document_runs(before);
        assert forall|k: int| 0 <= k < b.len() implies diff::same_nodes(#[trigger] b[k], a[k]) || (
        b[k].len() > 0 && a[k].len() > 0 && run_stands(b, k)) by {
            if !diff::same_nodes(b[k], a[k]) {
                let i = lemma_changed_run(before, after, shared, k);
                assert(!adapters::needs_full(changes[i]));
            }
        }
        lemma_run_edits_apart(src, b, a, b.len() as int);
    }
}

/// Where nothing changed there are no edits.
pub proof fn law_no_changes_make_no_edits(src: Seq<char>, after: DocumentView)
    ensures
        adapters::edits_for(src, after, seq![]) == Seq::<EditView>::empty(),
{
    assert(adapters::edits_for(src, after, seq![]) =~= Seq::<EditView>::empty());
}

} // verus!
