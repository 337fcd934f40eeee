//! Which element of a page an editor points at, and the programs that edit it.

use vstd::prelude::*;

use crate::conductor;
use crate::conductor::Conductor;
use crate::content_editor;
use crate::content_editor::text_before;
use crate::decimal;
use crate::decimal::usize_text;
use crate::document::{ContentElement, ElementView};
use crate::populate;
use crate::schema::Spanned;
use crate::site;
use crate::site::{clj_str, line_to_byte_offset, together};
use crate::slot_assignment::parse_and_assign;
use crate::text;
use crate::text::{contains, strip_prefix};
use crate::vector;
use crate::vector::{element_at, element_count};

verus! {

/// The stem of a content file: the directory that it lies in, or none for a file
/// of the root. Other files have none at all.
pub open spec fn cursor_stem(path: Seq<char>) -> Option<Seq<char>> {
    match text::without_prefix(path, "content/"@) {
        Some(rest) => if text::has_text(rest, "/"@) {
            Some(content_editor::before_first(rest, '/'))
        } else {
            Some(""@)
        },
        None => None,
    }
}

/// The stem of a content file.
pub fn stem_at_cursor(path: &str) -> (r: Option<String>)
    ensures
        text::opt_text(r) == cursor_stem(path@),
{
    match strip_prefix(path, "content/") {
        Some(rest) => if contains(rest.as_str(), "/") {
            Some(text_before(rest.as_str(), '/'))
        } else {
            Some("".to_owned())
        },
        None => None,
    }
}

/// Whether an element of the source covers an offset.
pub open spec fn covers(element: Spanned<ElementView>, offset: int) -> bool {
    element.span.start <= offset < element.span.end
}

/// The place of the first element that covers an offset, or the number of
/// elements.
pub open spec fn covering(body: Seq<Spanned<ElementView>>, offset: int) -> int
    decreases body.len(),
{
    if body.len() == 0 || covers(body[0], offset) {
        0
    } else {
        1 + covering(body.skip(1), offset)
    }
}

/// How far an offset lies before an element, or behind it.
pub open spec fn distance(element: Spanned<ElementView>, offset: int) -> int {
    if offset < element.span.start {
        element.span.start - offset
    } else {
        offset - element.span.end
    }
}

/// The place of the element that is nearest to an offset among the first ones; of
/// several, the first.
pub open spec fn nearest(body: Seq<Spanned<ElementView>>, offset: int, n: int) -> int
    decreases n,
{
    if n <= 1 {
        0
    } else {
        let before = nearest(body, offset, n - 1);
        if distance(body[n - 1], offset) < distance(body[before], offset) {
            n - 1
        } else {
            before
        }
    }
}

/// The place of the element of a body that an offset points at: one that covers
/// it, or the nearest one, where the body follows a separator.
pub open spec fn pointed_at(
    body: Seq<Spanned<ElementView>>,
    has_separator: bool,
    offset: int,
) -> Option<int> {
    let at = covering(body, offset);
    if 0 <= at < body.len() {
        Some(at)
    } else if has_separator && body.len() > 0 {
        Some(nearest(body, offset, body.len() as int))
    } else {
        None
    }
}

/// The anchor of an element of a body.
pub open spec fn anchor_text(index: nat) -> Seq<char> {
    "presemble-body-"@ + decimal::digits(index)
}

/// The anchor of an element of a body.
pub fn body_anchor(index: usize) -> (r: String)
    ensures
        r@ == anchor_text(index as nat),
{
    let digits = usize_text(index);
    together("presemble-body-", digits.as_str())
}

/// The nearest element lies among the elements, and no other is nearer.
pub proof fn law_nearest_is_nearest(body: Seq<Spanned<ElementView>>, offset: int, n: int)
    requires
        0 < n <= body.len(),
    ensures
        0 <= nearest(body, offset, n) < n,
        forall|k: int|
            0 <= k < n ==> distance(body[nearest(body, offset, n)], offset) <= distance(
                #[trigger] body[k],
                offset,
            ),
    decreases n,
{
    if n > 1 {
        law_nearest_is_nearest(body, offset, n - 1);
    }
}

/// The place of the element of a body that an offset points at.
pub fn element_at_offset(
    body: &im::Vector<Spanned<ContentElement>>,
    has_separator: bool,
    offset: usize,
) -> (r: Option<usize>)
    ensures
        match r {
            Some(k) => pointed_at(vector::element_items(*body), has_separator, offset as int)
                == Some(k as int),
            None => pointed_at(vector::element_items(*body), has_separator, offset as int) is None,
        },
{
    let n: usize = element_count(body);
    let ghost all = vector::element_items(*body);
    let mut i: usize = 0;
    proof {
        assert(all.skip(0) =~= all);
    }
    while i < n
        invariant
            i <= n,
            n == all.len(),
            all == vector::element_items(*body),
            covering(all, offset as int) == i + covering(all.skip(i as int), offset as int),
            forall|k: int| 0 <= k < i ==> !covers(#[trigger] all[k], offset as int),
        decreases n - i,
    {
        let element = element_at(body, i);
        proof {
            assert(element@ == all[i as int]);
            assert(element.span == all[i as int].span);
            assert(all.skip(i as int)[0] == all[i as int]);
            assert(all.skip(i as int).skip(1) =~= all.skip(i + 1));
        }
        if element.span.start <= offset && offset < element.span.end {
            return Some(i);
        }
        i += 1;
    }
    proof {
        assert(covering(all.skip(n as int), offset as int) == 0);
    }
    if !has_separator || n == 0 {
        return None;
    }
    let mut best: usize = 0;
    i = 1;
    while i < n
        invariant
            1 <= i <= n,
            best < i,
            n == all.len(),
            all == vector::element_items(*body),
            best == nearest(all, offset as int, i as int),
            forall|k: int| 0 <= k < n ==> !covers(#[trigger] all[k], offset as int),
        decreases n - i,
    {
        let here = element_at(body, i);
        let there = element_at(body, best);
        proof {
            assert(here.span == all[i as int].span && there.span == all[best as int].span);
            assert(!covers(all[i as int], offset as int));
            assert(!covers(all[best as int], offset as int));
        }
        let near: usize = if offset < here.span.start {
            here.span.start - offset
        } else {
            offset - here.span.end
        };
        let far: usize = if offset < there.span.start {
            there.span.start - offset
        } else {
            offset - there.span.end
        };
        if near < far {
            best = i;
        }
        i += 1;
    }
    Some(best)
}

/// The anchor of the element that a line of a text points at.
pub open spec fn anchor_at(c: Conductor, src: Seq<char>, path: Seq<char>, line: nat) -> Option<
    Seq<char>,
> {
    match cursor_stem(path) {
        None => None,
        Some(stem) => match conductor::grammar_of(c.schemas@, stem) {
            None => None,
            Some(grammar) => {
                let doc = populate::document_of(src, grammar);
                let offset = site::line_offset(vstd::utf8::encode_utf8(src), line);
                match pointed_at(doc.body, doc.has_separator, offset) {
                    Some(k) => Some(anchor_text(k as nat)),
                    None => None,
                }
            },
        },
    }
}

impl Conductor {
    /// Map a cursor line to the anchor of the body element that it lies on, or of
    /// the nearest one.
    ///
    /// Returns `None` if the document has no schema or no relevant elements.
    pub fn body_element_anchor_at_line(&self, src: &str, path: &str, line: u32) -> (r: Option<
        String,
    >)
        ensures
            text::opt_text(r) == anchor_at(*self, src@, path@, line as nat),
    {
        let stem = match stem_at_cursor(path) {
            Some(stem) => stem,
            None => {
                return None;
            },
        };
        match self.schemas.get(&stem) {
            None => None,
            Some(entry) => match &entry.grammar {
                Err(_) => None,
                Ok(grammar) => match parse_and_assign(src, grammar) {
                    Err(_) => None,
                    Ok(doc) => {
                        let offset = line_to_byte_offset(src, line);
                        match element_at_offset(&doc.body, doc.has_separator, offset) {
                            Some(k) => Some(body_anchor(k)),
                            None => None,
                        }
                    },
                },
            },
        }
    }
}

/// The program that gives a slot with one text another one.
pub open spec fn slot_program(file: Seq<char>, slot: Seq<char>, value: Seq<char>) -> Seq<char> {
    "(ned/set-text (-> (ned/slot (ned/doc-by-path "@ + site::clj_literal(file) + ") "@
        + site::clj_literal(slot) + ") ned/descendants ned/texts) "@ + site::clj_literal(value)
        + ")"@
}

/// The program that gives a slot with one text another one.
pub fn compose_slot_program(file: &str, slot: &str, value: &str) -> (r: String)
    ensures
        r@ == slot_program(file@, slot@, value@),
{
    let file = clj_str(file);
    let slot = clj_str(slot);
    let value = clj_str(value);
    let mut out = "(ned/set-text (-> (ned/slot (ned/doc-by-path ".to_owned();
    out.append(file.as_str());
    out.append(") ");
    out.append(slot.as_str());
    out.append(") ned/descendants ned/texts) ");
    out.append(value.as_str());
    out.append(")");
    out
}

/// The program that puts the first element into an empty body.
pub open spec fn first_body_program(
    schema: Seq<char>,
    file: Seq<char>,
    content: Seq<char>,
) -> Seq<char> {
    "(let [g (ned/parse-grammar "@ + site::clj_literal(schema)
        + ")]\n  (ned/insert-child\n    (-> (ned/doc-by-path "@ + site::clj_literal(file)
        + ") (ned/children) (ned/filter :kind \"body\"))\n    (first (ned/parse-body "@
        + site::clj_literal(content) + " g))))"@
}

/// The program that replaces an element of a body.
pub open spec fn body_program(
    schema: Seq<char>,
    file: Seq<char>,
    index: nat,
    content: Seq<char>,
) -> Seq<char> {
    "(let [g (ned/parse-grammar "@ + site::clj_literal(schema)
        + ")]\n  (ned/replace\n    (ned/body-at (ned/doc-by-path "@ + site::clj_literal(file) + ") "@
        + decimal::digits(index) + ")\n    (ned/parse-body "@ + site::clj_literal(content)
        + " g)))"@
}

/// The program that puts the first element into an empty body.
pub fn compose_first_body_program(schema: &str, file: &str, content: &str) -> (r: String)
    ensures
        r@ == first_body_program(schema@, file@, content@),
{
    let schema = clj_str(schema);
    let file = clj_str(file);
    let content = clj_str(content);
    let mut out = "(let [g (ned/parse-grammar ".to_owned();
    out.append(schema.as_str());
    out.append(")]\n  (ned/insert-child\n    (-> (ned/doc-by-path ");
    out.append(file.as_str());
    out.append(") (ned/children) (ned/filter :kind \"body\"))\n    (first (ned/parse-body ");
    out.append(content.as_str());
    out.append(" g))))");
    out
}

/// The program that replaces an element of a body.
pub fn compose_body_program(schema: &str, file: &str, index: usize, content: &str) -> (r: String)
    ensures
        r@ == body_program(schema@, file@, index as nat, content@),
{
    let schema = clj_str(schema);
    let file = clj_str(file);
    let digits = usize_text(index);
    let content = clj_str(content);
    let mut out = "(let [g (ned/parse-grammar ".to_owned();
    out.append(schema.as_str());
    out.append(")]\n  (ned/replace\n    (ned/body-at (ned/doc-by-path ");
    out.append(file.as_str());
    out.append(") ");
    out.append(digits.as_str());
    out.append(")\n    (ned/parse-body ");
    out.append(content.as_str());
    out.append(" g)))");
    out
}

/// The first element that covers an offset, and none where none does.
proof fn lemma_covering(body: Seq<Spanned<ElementView>>, offset: int)
    ensures
        0 <= covering(body, offset) <= body.len(),
        covering(body, offset) < body.len() ==> body[covering(body, offset)].span.start <= offset
            < body[covering(body, offset)].span.end,
        forall|k: int|
            0 <= k < covering(body, offset) ==> !((#[trigger] body[k]).span.start <= offset
                < body[k].span.end),
    decreases body.len(),
{
    if body.len() > 0 && !covers(body[0], offset) {
        lemma_covering(body.skip(1), offset);
        assert forall|k: int| 0 <= k < covering(body, offset) implies !((
        #[trigger] body[k]).span.start <= offset < body[k].span.end) by {
            if k > 0 {
                assert(body.skip(1)[k - 1] == body[k]);
            }
        }
    }
}

/// How far an offset lies from an element that does not cover it.
pub open spec fn gap(element: Spanned<ElementView>, offset: int) -> int {
    if offset < element.span.start {
        element.span.start - offset
    } else {
        offset - element.span.end
    }
}

/// An offset points at the first element that covers it. Where none does and the document
/// has a separator, it points at the element that it is nearest to, and otherwise at none.
pub proof fn law_offset_points_at_an_element(
    body: Seq<Spanned<ElementView>>,
    has_separator: bool,
    offset: int,
    k: int,
)
    ensures
        0 <= k < body.len() && body[k].span.start <= offset < body[k].span.end && (forall|j: int|
            0 <= j < k ==> !((#[trigger] body[j]).span.start <= offset < body[j].span.end))
            ==> pointed_at(body, has_separator, offset) == Some(k),
        (forall|j: int|
            0 <= j < body.len() ==> !((#[trigger] body[j]).span.start <= offset
                < body[j].span.end)) ==> match pointed_at(body, has_separator, offset) {
            Some(near) => has_separator && 0 <= near < body.len() && forall|j: int|
                0 <= j < body.len() ==> gap(body[near], offset) <= gap(#[trigger] body[j], offset),
            None => !has_separator || body.len() == 0,
        },
{
    lemma_covering(body, offset);
    let at = covering(body, offset);
    if 0 <= k < body.len() && body[k].span.start <= offset < body[k].span.end && forall|j: int|
        0 <= j < k ==> !((#[trigger] body[j]).span.start <= offset < body[j].span.end) {
        if at < k {
            assert(!(body[at].span.start <= offset < body[at].span.end));
        }
        if k < at {
            assert(!(body[k].span.start <= offset < body[k].span.end));
        }
    }
    if forall|j: int|
        0 <= j < body.len() ==> !((#[trigger] body[j]).span.start <= offset < body[j].span.end) {
        if at < body.len() {
            assert(!(body[at].span.start <= offset < body[at].span.end));
        }
        if has_separator && body.len() > 0 {
            law_nearest_is_nearest(body, offset, body.len() as int);
            let near = nearest(body, offset, body.len() as int);
            assert forall|j: int| 0 <= j < body.len() implies gap(body[near], offset) <= gap(
                #[trigger] body[j],
                offset,
            ) by {
                assert(distance(body[near], offset) <= distance(body[j], offset));
            }
        }
    }
}

/// A content file has the stem of the directory that it lies in; one at the top has the
/// empty stem, and a file elsewhere has none.
pub proof fn law_stem_at_the_cursor(stem: Seq<char>, rest: Seq<char>, path: Seq<char>)
    requires
        !stem.contains('/'),
    ensures
        cursor_stem("content/"@ + stem + seq!['/'] + rest) == Some(stem),
        cursor_stem("content/"@ + stem) == Some(Seq::<char>::empty()),
        !text::begins_with(path, "content/"@) ==> cursor_stem(path) is None,
{
    reveal_strlit("content/");
    reveal_strlit("/");
    reveal_strlit("");
    assert(""@ =~= Seq::<char>::empty());
    let deep = "content/"@ + stem + seq!['/'] + rest;
    let behind = stem + seq!['/'] + rest;
    assert(deep.take(8) =~= "content/"@);
    assert(deep.skip(8) =~= behind);
    assert(behind.subrange(stem.len() as int, stem.len() as int + 1) =~= "/"@);
    assert(text::occurs_at(behind, "/"@, stem.len() as int));
    assert forall|j: int| 0 <= j < stem.len() implies behind[j] != '/' by {
        assert(stem.contains(stem[j]));
    }
    assert(behind[stem.len() as int] == '/');
    text::lemma_first_index_is(behind, '/', stem.len() as int);
    assert(behind.take(stem.len() as int) =~= stem);
    let flat = "content/"@ + stem;
    assert(flat.take(8) =~= "content/"@);
    assert(flat.skip(8) =~= stem);
    assert(!text::has_text(stem, "/"@)) by {
        if text::has_text(stem, "/"@) {
            let i = choose|i: int| text::occurs_at(stem, "/"@, i);
            assert(stem.subrange(i, i + 1)[0] == '/');
            assert(stem[i] == '/');
        }
    }
}

/// Different elements have different anchors.
pub proof fn law_anchors_are_apart(a: nat, b: nat)
    ensures
        anchor_text(a) == anchor_text(b) ==> a == b,
        text::begins_with(anchor_text(a), "presemble-body-"@),
{
    let start = "presemble-body-"@;
    let max = a + b;
    decimal::law_unsigned_numeral_reads_back(a, max);
    decimal::law_unsigned_numeral_reads_back(b, max);
    assert(anchor_text(a).skip(start.len() as int) =~= decimal::digits(a));
    assert(anchor_text(b).skip(start.len() as int) =~= decimal::digits(b));
    assert(anchor_text(a).take(start.len() as int) =~= start);
}

/// Programs differ where what they are to write differs, and their parts stand in order:
/// the file is looked up first and the value comes last.
pub proof fn law_programs_name_their_parts(
    file: Seq<char>,
    slot: Seq<char>,
    value: Seq<char>,
    schema: Seq<char>,
    index: nat,
)
    ensures
        text::begins_with(
            slot_program(file, slot, value),
            "(ned/set-text (-> (ned/slot (ned/doc-by-path "@ + site::clj_literal(file) + ") "@
                + site::clj_literal(slot),
        ),
        text::finishes_with(slot_program(file, slot, value), site::clj_literal(value) + ")"@),
        text::begins_with(
            body_program(schema, file, index, value),
            "(let [g (ned/parse-grammar "@ + site::clj_literal(schema),
        ),
        text::finishes_with(
            body_program(schema, file, index, value),
            "(ned/body-at (ned/doc-by-path "@ + site::clj_literal(file) + ") "@ + decimal::digits(
                index,
            ) + ")\n    (ned/parse-body "@ + site::clj_literal(value) + " g)))"@,
        ),
        text::begins_with(
            first_body_program(schema, file, value),
            "(let [g (ned/parse-grammar "@ + site::clj_literal(schema),
        ),
        text::finishes_with(
            first_body_program(schema, file, value),
            "(first (ned/parse-body "@ + site::clj_literal(value) + " g))))"@,
        ),
{
    reveal_strlit(")]\n  (ned/replace\n    (ned/body-at (ned/doc-by-path ");
    reveal_strlit("(ned/body-at (ned/doc-by-path ");
    reveal_strlit(
        ") (ned/children) (ned/filter :kind \"body\"))\n    (first (ned/parse-body ",
    );
    reveal_strlit("(first (ned/parse-body ");
    let f = site::clj_literal(file);
    let s = site::clj_literal(slot);
    let v = site::clj_literal(value);
    let g = site::clj_literal(schema);
    let a = slot_program(file, slot, value);
    let start = "(ned/set-text (-> (ned/slot (ned/doc-by-path "@ + f + ") "@ + s;
    assert(a.take(start.len() as int) =~= start);
    assert(a.skip(a.len() - (v + ")"@).len()) =~= v + ")"@);
    let b = body_program(schema, file, index, value);
    let c = first_body_program(schema, file, value);
    let front = "(let [g (ned/parse-grammar "@ + g;
    assert(b.take(front.len() as int) =~= front);
    assert(c.take(front.len() as int) =~= front);
    let back = "(ned/body-at (ned/doc-by-path "@ + f + ") "@ + decimal::digits(index)
        + ")\n    (ned/parse-body "@ + v + " g)))"@;
    assert(b.skip(b.len() - back.len()) =~= back);
    let tail = "(first (ned/parse-body "@ + v + " g))))"@;
    assert(c.skip(c.len() - tail.len()) =~= tail);
}

} // verus!
