//! The serialiser: from a document back to canonical markdown.

use vstd::prelude::*;

use crate::decimal;
use crate::decimal::usize_text;
use crate::document;
use crate::document::{
    ContentElement, Document, DocumentView, ElementView, LinkOp, LinkOpView, LinkTarget,
    LinkTargetView, LinkText, LinkTextView, RefsToTarget, RefsToView,
};
use crate::schema::Spanned;
use crate::text;
use crate::text::{join, replace};
use crate::vector;
use crate::vector::{element_at, element_count, slot_at, slot_count};

verus! {

/// The text of an operation of a threaded expression.
pub open spec fn op_text(op: LinkOpView) -> Seq<char> {
    match op {
        LinkOpView::SortBy { field, descending } => "(sort-by :"@ + field + (if descending {
            " :desc)"@
        } else {
            " :asc)"@
        }),
        LinkOpView::Take(n) => "(take "@ + decimal::digits(n as nat) + ")"@,
        LinkOpView::Filter { field, value } => "(filter :"@ + field + " \""@ + value + "\")"@,
        LinkOpView::RefsTo(RefsToView::SelfRef) => "(refs-to self)"@,
        LinkOpView::RefsTo(RefsToView::Url(url)) => "(refs-to \""@ + url + "\")"@,
    }
}

/// The texts of operations, each behind a space.
pub open spec fn ops_text(ops: Seq<LinkOpView>) -> Seq<char>
    decreases ops.len(),
{
    if ops.len() == 0 {
        seq![]
    } else {
        ops_text(ops.drop_last()) + " "@ + op_text(ops.last())
    }
}

/// The destination that writes a link target. Spaces are encoded.
pub open spec fn target_text(target: LinkTargetView) -> Seq<char> {
    let plain = match target {
        LinkTargetView::PathRef(path) => ":"@ + path,
        LinkTargetView::ThreadExpr { source, operations } => "(->> :"@ + source + ops_text(
            operations,
        ) + ")"@,
    };
    text::replaced(plain, " "@, "%20"@)
}

/// The text part of a link expression.
pub open spec fn link_text_text(text: LinkTextView) -> Seq<char> {
    match text {
        LinkTextView::Empty => seq![],
        LinkTextView::Static(t) => t,
        LinkTextView::Binding(t) => t,
    }
}

/// The text of an optional string: empty where there is none.
pub open spec fn or_empty(o: Option<Seq<char>>) -> Seq<char> {
    match o {
        Some(s) => s,
        None => seq![],
    }
}

/// A line of a table.
pub open spec fn table_line(cells: Seq<Seq<char>>) -> Seq<char> {
    "| "@ + text::joined(cells, " | "@) + " |"@
}

/// The lines of a table: the headers, the rule below them, the rows.
pub open spec fn table_lines(headers: Seq<Seq<char>>, rows: Seq<Seq<Seq<char>>>) -> Seq<Seq<char>> {
    seq![table_line(headers), table_line(Seq::new(headers.len(), |i: int| "---"@))]
        + rows.map_values(|row: Seq<Seq<char>>| table_line(row))
}

/// The canonical markdown of an element.
pub open spec fn element_text(e: ElementView) -> Seq<char> {
    match e {
        ElementView::Heading { level, text } => Seq::new(level as nat, |i: int| '#') + " "@ + text,
        ElementView::Paragraph { text } => text,
        ElementView::Link { text, href } => "["@ + text + "]("@ + href + ")"@,
        ElementView::Image { alt, path } => "!["@ + or_empty(alt) + "]("@ + path + ")"@,
        ElementView::Separator => "----"@,
        ElementView::CodeBlock { language, code } => "```"@ + or_empty(language) + "\n"@ + code
            + "\n```"@,
        ElementView::Table { headers, rows } => text::joined(table_lines(headers, rows), "\n"@),
        ElementView::RawHtml { html } => html,
        ElementView::Blockquote { text } => "> "@ + text::replaced(text, "\n"@, "\n> "@),
        ElementView::List { source } => source,
        ElementView::LinkExpression { text, target } => "["@ + link_text_text(text) + "]("@
            + target_text(target) + ")"@,
    }
}

/// The canonical markdown of each of a sequence of elements.
pub open spec fn element_texts(items: Seq<Spanned<ElementView>>) -> Seq<Seq<char>> {
    items.map_values(|e: Spanned<ElementView>| element_text(e.node))
}

/// The canonical markdown of a document: its elements with a blank line between
/// neighbours, and a line feed at the end.
pub open spec fn document_text(doc: DocumentView) -> Seq<char> {
    let parts = element_texts(document::document_flat(doc));
    if parts.len() == 0 {
        seq![]
    } else {
        text::joined(parts, "\n\n"@) + "\n"@
    }
}

/// The text of an operation of a threaded expression.
fn serialize_op(op: &LinkOp) -> (r: String)
    ensures
        r@ == op_text(op@),
{
    match op {
        LinkOp::SortBy { field, descending } => {
            let mut out = "(sort-by :".to_owned();
            out.append(field.as_str());
            if *descending {
                out.append(" :desc)");
            } else {
                out.append(" :asc)");
            }
            out
        },
        LinkOp::Take(n) => {
            let mut out = "(take ".to_owned();
            out.append(usize_text(*n).as_str());
            out.append(")");
            out
        },
        LinkOp::Filter { field, value } => {
            let mut out = "(filter :".to_owned();
            out.append(field.as_str());
            out.append(" \"");
            out.append(value.as_str());
            out.append("\")");
            out
        },
        LinkOp::RefsTo(RefsToTarget::SelfRef) => "(refs-to self)".to_owned(),
        LinkOp::RefsTo(RefsToTarget::Url(url)) => {
            let mut out = "(refs-to \"".to_owned();
            out.append(url.as_str());
            out.append("\")");
            out
        },
    }
}

/// The destination that writes a link target.
fn serialize_target(target: &LinkTarget) -> (r: String)
    ensures
        r@ == target_text(target@),
{
    proof {
        reveal_strlit(" ");
    }
    match target {
        LinkTarget::PathRef(path) => {
            let mut out = ":".to_owned();
            out.append(path.as_str());
            replace(out.as_str(), " ", "%20")
        },
        LinkTarget::ThreadExpr { source, operations } => {
            let mut out = "(->> :".to_owned();
            out.append(source.as_str());
            let ghost head = out@;
            let ghost ops = document::op_views(operations@);
            let mut i: usize = 0;
            proof {
                assert(ops.take(0) =~= seq![]);
                assert(head + Seq::<char>::empty() == head);
            }
            while i < operations.len()
                invariant
                    i <= operations.len(),
                    ops == document::op_views(operations@),
                    out@ == head + ops_text(ops.take(i as int)),
                decreases operations.len() - i,
            {
                let part = serialize_op(&operations[i]);
                proof {
                    let t = ops.take(i + 1);
                    assert(t.drop_last() == ops.take(i as int));
                    assert(t.last() == operations@[i as int]@);
                    assert(head + (ops_text(ops.take(i as int)) + " "@ + part@) == out@ + " "@
                        + part@);
                }
                out.append(" ");
                out.append(part.as_str());
                i += 1;
            }
            proof {
                assert(ops.take(i as int) == ops);
            }
            out.append(")");
            replace(out.as_str(), " ", "%20")
        },
    }
}

/// A line of a table.
fn serialize_row(cells: &Vec<String>) -> (r: String)
    ensures
        r@ == table_line(text::texts(cells@)),
{
    let mut out = "| ".to_owned();
    out.append(join(cells, " | ").as_str());
    out.append(" |");
    out
}

/// The markdown of a table.
fn serialize_table(headers: &Vec<String>, rows: &Vec<Vec<String>>) -> (r: String)
    ensures
        r@ == text::joined(
            table_lines(text::texts(headers@), document::row_views(rows@)),
            "\n"@,
        ),
{
    let ghost heads = text::texts(headers@);
    let ghost lines_of_rows = document::row_views(rows@).map_values(
        |row: Seq<Seq<char>>| table_line(row),
    );
    let mut dashes: Vec<String> = Vec::new();
    let mut i: usize = 0;
    while i < headers.len()
        invariant
            i <= headers.len(),
            dashes.len() == i,
            forall|k: int| 0 <= k < i ==> (#[trigger] dashes@[k])@ == "---"@,
        decreases headers.len() - i,
    {
        dashes.push("---".to_owned());
        i += 1;
    }
    proof {
        assert(text::texts(dashes@) =~= Seq::new(heads.len(), |i: int| "---"@));
    }
    let mut lines: Vec<String> = Vec::new();
    lines.push(serialize_row(headers));
    lines.push(serialize_row(&dashes));
    let ghost top = text::texts(lines@);
    proof {
        assert(top =~= seq![
            table_line(heads),
            table_line(Seq::new(heads.len(), |i: int| "---"@)),
        ]);
        assert(top + lines_of_rows.take(0) =~= top);
    }
    let mut j: usize = 0;
    while j < rows.len()
        invariant
            j <= rows.len(),
            lines_of_rows == document::row_views(rows@).map_values(
                |row: Seq<Seq<char>>| table_line(row),
            ),
            text::texts(lines@) == top + lines_of_rows.take(j as int),
        decreases rows.len() - j,
    {
        let line = serialize_row(&rows[j]);
        let ghost before = lines@;
        lines.push(line);
        proof {
            assert(lines_of_rows[j as int] == line@);
            assert(text::texts(lines@) =~= text::texts(before).push(line@));
            assert(text::texts(lines@) =~= top + lines_of_rows.take(j + 1));
        }
        j += 1;
    }
    proof {
        assert(lines_of_rows.take(j as int) == lines_of_rows);
    }
    join(&lines, "\n")
}

/// The text of an optional string.
fn opt_str(o: &Option<String>) -> (r: &str)
    ensures
        r@ == or_empty(text::opt_text(*o)),
{
    match o {
        Some(s) => s.as_str(),
        None => {
            proof {
                reveal_strlit("");
                assert(""@ =~= seq![]);
            }
            ""
        },
    }
}

/// The canonical markdown of an element.
pub fn serialize_element(element: &ContentElement) -> (r: String)
    ensures
        r@ == element_text(element@),
{
    match element {
        ContentElement::Heading { level, text } => {
            let n = level.value();
            let mut out = String::new();
            let mut i: u8 = 0;
            while i < n
                invariant
                    i <= n,
                    out@ == Seq::new(i as nat, |k: int| '#'),
                decreases n - i,
            {
                out.push('#');
                i += 1;
                proof {
                    assert(out@ =~= Seq::new(i as nat, |k: int| '#'));
                }
            }
            out.append(" ");
            out.append(text.as_str());
            out
        },
        ContentElement::Paragraph { text } => text.clone(),
        ContentElement::Link { text, href } => {
            let mut out = "[".to_owned();
            out.append(text.as_str());
            out.append("](");
            out.append(href.as_str());
            out.append(")");
            out
        },
        ContentElement::Image { alt, path } => {
            let mut out = "![".to_owned();
            out.append(opt_str(alt));
            out.append("](");
            out.append(path.as_str());
            out.append(")");
            out
        },
        ContentElement::Separator => "----".to_owned(),
        ContentElement::CodeBlock { language, code } => {
            let mut out = "```".to_owned();
            out.append(opt_str(language));
            out.append("\n");
            out.append(code.as_str());
            out.append("\n```");
            out
        },
        ContentElement::Table { headers, rows } => serialize_table(headers, rows),
        ContentElement::RawHtml { html } => html.clone(),
        ContentElement::Blockquote { text } => {
            proof {
                reveal_strlit("\n");
            }
            let mut out = "> ".to_owned();
            out.append(replace(text.as_str(), "\n", "\n> ").as_str());
            out
        },
        ContentElement::List { source } => source.clone(),
        ContentElement::LinkExpression { text, target } => {
            let mut out = "[".to_owned();
            match text {
                LinkText::Empty => {
                    proof {
                        assert(out@ + Seq::<char>::empty() == out@);
                    }
                },
                LinkText::Static(t) => {
                    out.append(t.as_str());
                },
                LinkText::Binding(t) => {
                    out.append(t.as_str());
                },
            }
            out.append("](");
            out.append(serialize_target(target).as_str());
            out.append(")");
            out
        },
    }
}

/// Puts the markdown of each element behind the parts.
fn push_texts(parts: &mut Vec<String>, elements: &im::Vector<Spanned<ContentElement>>)
    ensures
        text::texts(final(parts)@) == text::texts(old(parts)@) + element_texts(
            vector::element_items(*elements),
        ),
{
    let ghost items = vector::element_items(*elements);
    let ghost first = text::texts(parts@);
    let n = element_count(elements);
    let mut i: usize = 0;
    proof {
        assert(first + element_texts(items).take(0) =~= first);
    }
    while i < n
        invariant
            i <= n,
            n == items.len(),
            items == vector::element_items(*elements),
            text::texts(parts@) == first + element_texts(items).take(i as int),
        decreases n - i,
    {
        let part = serialize_element(&element_at(elements, i).node);
        let ghost before = parts@;
        parts.push(part);
        proof {
            assert(text::texts(parts@) =~= text::texts(before).push(part@));
            assert(element_texts(items)[i as int] == part@);
            assert(text::texts(parts@) =~= first + element_texts(items).take(i + 1));
        }
        i += 1;
    }
    proof {
        assert(element_texts(items).take(n as int) == element_texts(items));
    }
}

/// The canonical markdown of a run of elements, with a blank line between
/// neighbours.
pub fn serialize_elements(elements: &im::Vector<Spanned<ContentElement>>) -> (r: String)
    ensures
        r@ == text::joined(element_texts(vector::element_items(*elements)), "\n\n"@),
{
    let mut parts: Vec<String> = Vec::new();
    push_texts(&mut parts, elements);
    proof {
        assert(text::texts(parts@) =~= element_texts(vector::element_items(*elements)));
    }
    join(&parts, "\n\n")
}

/// Serialize a document back to canonical markdown.
///
/// The elements of the preamble slots come in order, then the separator, if
/// there is one, then the elements of the body, with a blank line between
/// neighbours. The same document always gives the same markdown.
pub fn serialize_document(doc: &Document) -> (r: String)
    ensures
        r@ == document_text(doc@),
{
    let ghost slots = vector::slot_items(doc.preamble);
    let mut parts: Vec<String> = Vec::new();
    let n = slot_count(&doc.preamble);
    let mut i: usize = 0;
    proof {
        assert(slots.take(0) =~= seq![]);
        assert(text::texts(parts@) =~= element_texts(document::slots_flat(slots.take(0))));
    }
    while i < n
        invariant
            i <= n,
            n == slots.len(),
            slots == vector::slot_items(doc.preamble),
            text::texts(parts@) == element_texts(document::slots_flat(slots.take(i as int))),
        decreases n - i,
    {
        proof {
            assert(slots.take(i + 1).drop_last() == slots.take(i as int));
        }
        let ghost before = text::texts(parts@);
        push_texts(&mut parts, &slot_at(&doc.preamble, i).elements);
        proof {
            assert(text::texts(parts@) =~= element_texts(
                document::slots_flat(slots.take(i + 1)),
            ));
        }
        i += 1;
    }
    proof {
        assert(slots.take(n as int) == slots);
    }
    if doc.has_separator {
        let ghost before = parts@;
        let part = serialize_element(&ContentElement::Separator);
        parts.push(part);
        proof {
            assert(text::texts(parts@) =~= text::texts(before).push(part@));
        }
    }
    proof {
        assert(text::texts(parts@) =~= element_texts(
            document::slots_flat(slots) + document::separator_part(doc@),
        ));
    }
    push_texts(&mut parts, &doc.body);
    proof {
        assert(text::texts(parts@) =~= element_texts(document::document_flat(doc@)));
    }
    if parts.len() == 0 {
        return String::new();
    }
    let mut out = join(&parts, "\n\n");
    out.append("\n");
    out
}

/// A line of a table in its pieces between the bars.
proof fn lemma_line_pieces(cells: Seq<Seq<char>>)
    requires
        cells.len() > 0,
    ensures
        "| "@ + text::joined(cells, " | "@) + " |"@ == text::joined(
            seq![Seq::<char>::empty()] + cells.map_values(|c: Seq<char>| " "@ + c + " "@)
                + seq![Seq::<char>::empty()],
            seq!['|'],
        ),
    decreases cells.len(),
{
    reveal_strlit("| ");
    reveal_strlit(" |");
    reveal_strlit(" | ");
    reveal_strlit(" ");
    let none = Seq::<char>::empty();
    let spaced = cells.map_values(|c: Seq<char>| " "@ + c + " "@);
    let parts = seq![none] + spaced + seq![none];
    let bar = seq!['|'];
    let front = parts.drop_last();
    assert(front =~= seq![none] + spaced);
    assert(parts.last() == none);
    assert(front.last() == spaced.last());
    assert(spaced.last() == " "@ + cells.last() + " "@);
    if cells.len() == 1 {
        assert(front.drop_last() =~= seq![none]);
        assert(text::joined(front.drop_last(), bar) == none);
        assert(text::joined(front, bar) =~= bar + spaced[0]);
        assert(text::joined(parts, bar) =~= bar + spaced[0] + bar + none);
        assert(text::joined(cells, " | "@) =~= cells[0]);
        assert("| "@ + cells[0] + " |"@ =~= bar + (" "@ + cells[0] + " "@) + bar + none);
        assert("| "@ + text::joined(cells, " | "@) + " |"@ =~= text::joined(parts, bar));
    } else {
        let fewer = cells.drop_last();
        lemma_line_pieces(fewer);
        let spaced_fewer = fewer.map_values(|c: Seq<char>| " "@ + c + " "@);
        assert(spaced.drop_last() =~= spaced_fewer);
        let parts_fewer = seq![none] + spaced_fewer + seq![none];
        assert(parts_fewer.drop_last() =~= front.drop_last());
        let start = text::joined(front.drop_last(), bar);
        let line = "| "@ + text::joined(fewer, " | "@) + " |"@;
        assert(text::joined(parts_fewer, bar) =~= start + bar + none);
        assert(line =~= start + bar);
        assert(text::joined(front, bar) == start + bar + spaced.last());
        assert(text::joined(parts, bar) == text::joined(front, bar) + bar + none);
        assert("| "@ + text::joined(cells, " | "@) + " |"@ =~= line + (" "@ + cells.last() + " "@)
            + bar + none);
        assert("| "@ + text::joined(cells, " | "@) + " |"@ =~= text::joined(parts, bar));
    }
}

/// A line of a table has a bar before each cell and behind the last one, and each cell
/// between two spaces.
proof fn lemma_line_cells(cells: Seq<Seq<char>>)
    requires
        cells.len() > 0,
        forall|i: int| 0 <= i < cells.len() ==> !(#[trigger] cells[i]).contains('|'),
    ensures
        ({
            let pieces = text::split_of("| "@ + text::joined(cells, " | "@) + " |"@, '|');
            &&& pieces.len() == cells.len() + 2
            &&& pieces[0].len() == 0
            &&& pieces.last().len() == 0
            &&& forall|i: int|
                0 <= i < cells.len() ==> #[trigger] pieces[i + 1] == seq![' '] + cells[i] + seq![
                    ' ',
                ]
        }),
{
    reveal_strlit(" ");
    let none = Seq::<char>::empty();
    let spaced = cells.map_values(|c: Seq<char>| " "@ + c + " "@);
    let parts = seq![none] + spaced + seq![none];
    lemma_line_pieces(cells);
    assert forall|k: int| 0 <= k < parts.len() implies !(#[trigger] parts[k]).contains('|') by {
        if 0 < k < parts.len() - 1 {
            let c = cells[k - 1];
            assert(parts[k] == " "@ + c + " "@);
            if parts[k].contains('|') {
                let m = choose|m: int| 0 <= m < parts[k].len() && parts[k][m] == '|';
                assert(c[m - 1] == '|');
                assert(c.contains('|'));
            }
        }
    }
    text::law_splitting_undoes_joining(parts, '|');
    assert(parts.last() == none);
    assert forall|i: int| 0 <= i < cells.len() implies #[trigger] parts[i + 1] == seq![' ']
        + cells[i] + seq![' '] by {
        assert(parts[i + 1] == spaced[i]);
        assert(" "@ =~= seq![' ']);
    }
}

/// Joined cells without line feeds hold none, and neither does their line.
proof fn lemma_line_without_feed(cells: Seq<Seq<char>>)
    requires
        forall|i: int| 0 <= i < cells.len() ==> !(#[trigger] cells[i]).contains('\n'),
    ensures
        !text::joined(cells, " | "@).contains('\n'),
        !table_line(cells).contains('\n'),
    decreases cells.len(),
{
    reveal_strlit("| ");
    reveal_strlit(" |");
    reveal_strlit(" | ");
    let all = text::joined(cells, " | "@);
    if cells.len() > 1 {
        let fewer = cells.drop_last();
        assert forall|i: int| 0 <= i < fewer.len() implies !(#[trigger] fewer[i]).contains('\n') by {
            assert(fewer[i] == cells[i]);
        }
        lemma_line_without_feed(fewer);
        let start = text::joined(fewer, " | "@);
        let last = cells.last();
        assert(!last.contains('\n')) by {
            assert(last == cells[cells.len() - 1]);
        }
        if all.contains('\n') {
            let k = choose|k: int| 0 <= k < all.len() && all[k] == '\n';
            if k < start.len() {
                assert(start[k] == '\n');
                assert(start.contains('\n'));
            } else if k >= start.len() + 3 {
                assert(last[k - start.len() - 3] == '\n');
                assert(last.contains('\n'));
            }
        }
    } else if cells.len() == 1 {
        assert(all == cells[0]);
    }
    let line = table_line(cells);
    if line.contains('\n') {
        let k = choose|k: int| 0 <= k < line.len() && line[k] == '\n';
        if 2 <= k < 2 + all.len() {
            assert(all[k - 2] == '\n');
            assert(all.contains('\n'));
        }
    }
}

/// Whether the cells of a table hold neither bars nor line feeds.
pub open spec fn are_plain_cells(cells: Seq<Seq<char>>) -> bool {
    forall|i: int|
        0 <= i < cells.len() ==> !(#[trigger] cells[i]).contains('|') && !cells[i].contains('\n')
}

/// The markdown of a table has one line for its headers, one for the rule below them,
/// and one for each row, in order.
pub proof fn law_table_has_a_line_for_each_row(
    headers: Seq<Seq<char>>,
    rows: Seq<Seq<Seq<char>>>,
)
    requires
        forall|i: int| 0 <= i < headers.len() ==> !(#[trigger] headers[i]).contains('\n'),
        forall|k: int, i: int|
            0 <= k < rows.len() && 0 <= i < rows[k].len() ==> !(#[trigger] rows[k][i]).contains(
                '\n',
            ),
    ensures
        ({
            let lines = text::split_of(element_text(ElementView::Table { headers, rows }), '\n');
            &&& lines.len() == rows.len() + 2
            &&& lines[0] == "| "@ + text::joined(headers, " | "@) + " |"@
            &&& lines[1] == "| "@ + text::joined(
                Seq::new(headers.len(), |i: int| "---"@),
                " | "@,
            ) + " |"@
            &&& forall|k: int|
                0 <= k < rows.len() ==> #[trigger] lines[k + 2] == "| "@ + text::joined(
                    rows[k],
                    " | "@,
                ) + " |"@
        }),
{
    reveal_strlit("\n");
    reveal_strlit("---");
    let dashes = Seq::new(headers.len(), |i: int| "---"@);
    let lines = table_lines(headers, rows);
    assert forall|i: int| 0 <= i < dashes.len() implies !(#[trigger] dashes[i]).contains('\n') by {
        if dashes[i].contains('\n') {
            let m = choose|m: int| 0 <= m < dashes[i].len() && dashes[i][m] == '\n';
            assert("---"@[m] == '-');
        }
    }
    lemma_line_without_feed(headers);
    lemma_line_without_feed(dashes);
    assert forall|k: int| 0 <= k < lines.len() implies !(#[trigger] lines[k]).contains('\n') by {
        if k >= 2 {
            let row = rows[k - 2];
            assert(lines[k] == table_line(row));
            assert forall|i: int| 0 <= i < row.len() implies !(#[trigger] row[i]).contains('\n') by {
                assert(row[i] == rows[k - 2][i]);
            }
            lemma_line_without_feed(row);
        }
    }
    assert("\n"@ =~= seq!['\n']);
    text::law_splitting_undoes_joining(lines, '\n');
    assert forall|k: int| 0 <= k < rows.len() implies #[trigger] lines[k + 2] == "| "@
        + text::joined(rows[k], " | "@) + " |"@ by {
        assert(lines[k + 2] == table_line(rows[k]));
    }
}

/// Each line of the markdown of a table has its cells, in order, between bars and
/// spaces. The cells hold neither bars nor line feeds.
pub proof fn law_table_has_its_cells(
    headers: Seq<Seq<char>>,
    rows: Seq<Seq<Seq<char>>>,
    k: int,
    i: int,
)
    requires
        are_plain_cells(headers),
        forall|j: int| 0 <= j < rows.len() ==> are_plain_cells(#[trigger] rows[j]),
        0 <= k < rows.len(),
        0 <= i < rows[k].len(),
    ensures
        ({
            let lines = text::split_of(element_text(ElementView::Table { headers, rows }), '\n');
            let pieces = text::split_of(lines[k + 2], '|');
            &&& lines.len() == rows.len() + 2
            &&& pieces.len() == rows[k].len() + 2
            &&& pieces[i + 1] == seq![' '] + rows[k][i] + seq![' ']
        }),
{
    assert forall|j: int, m: int| 0 <= j < rows.len() && 0 <= m < rows[j].len() implies !(
    #[trigger] rows[j][m]).contains('\n') by {
        assert(are_plain_cells(rows[j]));
    }
    law_table_has_a_line_for_each_row(headers, rows);
    assert(are_plain_cells(rows[k]));
    lemma_line_cells(rows[k]);
}

/// Cells without bars that make the same line are the same.
proof fn lemma_same_line(a: Seq<Seq<char>>, b: Seq<Seq<char>>)
    requires
        a.len() > 0,
        b.len() > 0,
        are_plain_cells(a),
        are_plain_cells(b),
        "| "@ + text::joined(a, " | "@) + " |"@ == "| "@ + text::joined(b, " | "@) + " |"@,
    ensures
        a == b,
{
    lemma_line_cells(a);
    lemma_line_cells(b);
    let pieces = text::split_of("| "@ + text::joined(a, " | "@) + " |"@, '|');
    assert forall|i: int| 0 <= i < a.len() implies a[i] == b[i] by {
        let p = pieces[i + 1];
        assert(p == seq![' '] + a[i] + seq![' ']);
        assert(p == seq![' '] + b[i] + seq![' ']);
        assert(p.subrange(1, p.len() - 1) =~= a[i]);
        assert(p.subrange(1, p.len() - 1) =~= b[i]);
    }
    assert(a =~= b);
}

/// Different tables have different markdown. Every line has a cell, and the cells hold
/// neither bars nor line feeds.
pub proof fn law_different_tables_have_different_markdown(
    headers: Seq<Seq<char>>,
    rows: Seq<Seq<Seq<char>>>,
    other_headers: Seq<Seq<char>>,
    other_rows: Seq<Seq<Seq<char>>>,
)
    requires
        headers.len() > 0,
        other_headers.len() > 0,
        are_plain_cells(headers),
        are_plain_cells(other_headers),
        forall|j: int|
            0 <= j < rows.len() ==> are_plain_cells(#[trigger] rows[j]) && rows[j].len() > 0,
        forall|j: int|
            0 <= j < other_rows.len() ==> are_plain_cells(#[trigger] other_rows[j])
                && other_rows[j].len() > 0,
        element_text(ElementView::Table { headers, rows }) == element_text(
            ElementView::Table { headers: other_headers, rows: other_rows },
        ),
    ensures
        headers == other_headers,
        rows == other_rows,
{
    assert forall|j: int, m: int| 0 <= j < rows.len() && 0 <= m < rows[j].len() implies !(
    #[trigger] rows[j][m]).contains('\n') by {
        assert(are_plain_cells(rows[j]));
    }
    assert forall|j: int, m: int| 0 <= j < other_rows.len() && 0 <= m < other_rows[j].len() implies !(
    #[trigger] other_rows[j][m]).contains('\n') by {
        assert(are_plain_cells(other_rows[j]));
    }
    law_table_has_a_line_for_each_row(headers, rows);
    law_table_has_a_line_for_each_row(other_headers, other_rows);
    let lines = text::split_of(element_text(ElementView::Table { headers, rows }), '\n');
    lemma_same_line(headers, other_headers);
    assert forall|k: int| 0 <= k < rows.len() implies rows[k] == other_rows[k] by {
        assert(lines[k + 2] == "| "@ + text::joined(rows[k], " | "@) + " |"@);
        assert(lines[k + 2] == "| "@ + text::joined(other_rows[k], " | "@) + " |"@);
        assert(are_plain_cells(rows[k]) && are_plain_cells(other_rows[k]));
        lemma_same_line(rows[k], other_rows[k]);
    }
    assert(rows =~= other_rows);
}

/// The markdown of a heading is as many number signs as its level says, a space, and
/// its text.
pub proof fn law_heading_is_written_with_its_level(level: u8, text: Seq<char>)
    ensures
        ({
            let written = element_text(ElementView::Heading { level, text });
            &&& written.len() == level + 1 + text.len()
            &&& forall|k: int| 0 <= k < level ==> #[trigger] written[k] == '#'
            &&& written[level as int] == ' '
            &&& written.skip(level + 1) == text
        }),
{
    reveal_strlit(" ");
    let written = element_text(ElementView::Heading { level, text });
    assert(written.skip(level + 1) =~= text);
}

/// The markdown of a link has its text between square brackets and its destination
/// between round ones.
pub proof fn law_link_is_written_with_both_parts(text: Seq<char>, href: Seq<char>)
    ensures
        ({
            let written = element_text(ElementView::Link { text, href });
            let n = text.len() as int;
            &&& written.len() == n + href.len() + 4
            &&& written[0] == '['
            &&& written.subrange(1, n + 1) == text
            &&& written[n + 1] == ']'
            &&& written[n + 2] == '('
            &&& written.subrange(n + 3, written.len() - 1) == href
            &&& written.last() == ')'
        }),
{
    reveal_strlit("[");
    reveal_strlit("](");
    reveal_strlit(")");
    let written = element_text(ElementView::Link { text, href });
    let n = text.len() as int;
    assert(written.subrange(1, n + 1) =~= text);
    assert(written.subrange(n + 3, written.len() - 1) =~= href);
}

/// The markdown of an image is that of a link to its path with its alternative text,
/// behind an exclamation mark. An image without such a text is written as one with an
/// empty one.
pub proof fn law_image_is_written_as_a_marked_link(alt: Seq<char>, path: Seq<char>)
    ensures
        element_text(ElementView::Image { alt: Some(alt), path }) == seq!['!'] + element_text(
            ElementView::Link { text: alt, href: path },
        ),
        element_text(ElementView::Image { alt: None, path }) == element_text(
            ElementView::Image { alt: Some(Seq::<char>::empty()), path },
        ),
{
    reveal_strlit("[");
    reveal_strlit("![");
    assert(element_text(ElementView::Image { alt: Some(alt), path }) =~= seq!['!'] + element_text(
        ElementView::Link { text: alt, href: path },
    ));
    assert(element_text(ElementView::Image { alt: None, path }) =~= element_text(
        ElementView::Image { alt: Some(Seq::<char>::empty()), path },
    ));
}

/// The markdown of a code block is a fence with the language, the code, and a fence. One
/// without a language is written as one with an empty one.
pub proof fn law_code_block_is_fenced(language: Seq<char>, code: Seq<char>)
    ensures
        ({
            let written = element_text(
                ElementView::CodeBlock { language: Some(language), code },
            );
            let n = language.len() as int;
            &&& written.len() == n + code.len() + 8
            &&& written.take(3) == seq!['`', '`', '`']
            &&& written.subrange(3, n + 3) == language
            &&& written[n + 3] == '\n'
            &&& written.subrange(n + 4, written.len() - 4) == code
            &&& written.skip(written.len() - 4) == seq!['\n', '`', '`', '`']
        }),
        element_text(ElementView::CodeBlock { language: None, code }) == element_text(
            ElementView::CodeBlock { language: Some(Seq::<char>::empty()), code },
        ),
{
    reveal_strlit("```");
    reveal_strlit("\n");
    reveal_strlit("\n```");
    let written = element_text(ElementView::CodeBlock { language: Some(language), code });
    let n = language.len() as int;
    assert(written.take(3) =~= seq!['`', '`', '`']);
    assert(written.subrange(3, n + 3) =~= language);
    assert(written.subrange(n + 4, written.len() - 4) =~= code);
    assert(written.skip(written.len() - 4) =~= seq!['\n', '`', '`', '`']);
    assert(element_text(ElementView::CodeBlock { language: None, code }) =~= element_text(
        ElementView::CodeBlock { language: Some(Seq::<char>::empty()), code },
    ));
}

/// A text that is quoted has a mark at the start of each of its lines.
pub proof fn law_every_line_of_a_quote_is_marked(quoted: Seq<char>)
    ensures
        ({
            let written = element_text(ElementView::Blockquote { text: quoted });
            let lines = text::split_of(quoted, '\n');
            let marked = text::split_of(written, '\n');
            &&& marked.len() == lines.len()
            &&& forall|k: int|
                0 <= k < lines.len() ==> #[trigger] marked[k] == seq!['>', ' '] + lines[k]
        }),
    decreases quoted.len(),
{
    reveal_strlit("> ");
    reveal_strlit("\n");
    reveal_strlit("\n> ");
    let feed = "\n"@;
    assert(feed =~= seq!['\n']);
    let mark = seq!['>', ' '];
    assert("> "@ =~= mark);
    let written = element_text(ElementView::Blockquote { text: quoted });
    let n = text::first_index(quoted, '\n');
    text::lemma_first_index(quoted, '\n');
    let lines = text::split_of(quoted, '\n');
    if n < quoted.len() {
        let head = quoted.take(n);
        let tail = quoted.skip(n + 1);
        law_every_line_of_a_quote_is_marked(tail);
        lemma_marked_until_feed(head, tail);
        assert(head + seq!['\n'] + tail =~= quoted);
        let rest = element_text(ElementView::Blockquote { text: tail });
        assert(written =~= (mark + head) + seq!['\n'] + rest);
        assert(!head.contains('\n'));
        assert(!(mark + head).contains('\n')) by {
            let all = mark + head;
            if all.contains('\n') {
                let k = choose|k: int| 0 <= k < all.len() && all[k] == '\n';
                assert(head[k - 2] == '\n');
            }
        }
        text::lemma_split_first(mark + head, rest, '\n');
        let marked = text::split_of(written, '\n');
        let marked_rest = text::split_of(rest, '\n');
        let lines_rest = text::split_of(tail, '\n');
        assert forall|k: int| 0 <= k < lines.len() implies #[trigger] marked[k] == mark
            + lines[k] by {
            if k > 0 {
                assert(marked[k] == marked_rest[k - 1]);
                assert(lines[k] == lines_rest[k - 1]);
            }
        }
    } else {
        assert(!quoted.contains('\n')) by {
            if quoted.contains('\n') {
                let k = choose|k: int| 0 <= k < quoted.len() && quoted[k] == '\n';
                assert(quoted[k] != '\n');
            }
        }
        lemma_unmarked(quoted);
        assert(written =~= mark + quoted);
        assert(!written.contains('\n')) by {
            if written.contains('\n') {
                let k = choose|k: int| 0 <= k < written.len() && written[k] == '\n';
                assert(quoted[k - 2] == '\n');
            }
        }
        text::lemma_split_only(written, '\n');
        text::lemma_split_only(quoted, '\n');
    }
}

/// A text without line feeds gets no marks inside.
proof fn lemma_unmarked(s: Seq<char>)
    requires
        !s.contains('\n'),
    ensures
        text::replaced(s, "\n"@, "\n> "@) == s,
    decreases s.len(),
{
    reveal_strlit("\n");
    if s.len() > 0 {
        assert(s.contains(s[0]));
        assert(!text::begins_with(s, "\n"@)) by {
            if text::begins_with(s, "\n"@) {
                assert(s.take(1)[0] == '\n');
            }
        }
        let t = s.skip(1);
        assert(!t.contains('\n')) by {
            if t.contains('\n') {
                let k = choose|k: int| 0 <= k < t.len() && t[k] == '\n';
                assert(s[k + 1] == '\n');
            }
        }
        lemma_unmarked(t);
        assert(seq![s[0]] + t =~= s);
    }
}

/// What stands before a line feed stays, and a mark follows the line feed.
proof fn lemma_marked_until_feed(head: Seq<char>, tail: Seq<char>)
    requires
        !head.contains('\n'),
    ensures
        text::replaced(head + seq!['\n'] + tail, "\n"@, "\n> "@) == head + "\n> "@
            + text::replaced(tail, "\n"@, "\n> "@),
    decreases head.len(),
{
    reveal_strlit("\n");
    let all = head + seq!['\n'] + tail;
    let rest = text::replaced(tail, "\n"@, "\n> "@);
    if head.len() == 0 {
        assert(all.take(1) =~= "\n"@);
        assert(all.skip(1) =~= tail);
        assert(head + "\n> "@ + rest =~= "\n> "@ + rest);
    } else {
        assert(head.contains(head[0]));
        assert(all[0] == head[0]);
        assert(!text::begins_with(all, "\n"@)) by {
            if text::begins_with(all, "\n"@) {
                assert(all.take(1)[0] == '\n');
            }
        }
        let t = head.skip(1);
        assert(!t.contains('\n')) by {
            if t.contains('\n') {
                let k = choose|k: int| 0 <= k < t.len() && t[k] == '\n';
                assert(head[k + 1] == '\n');
            }
        }
        lemma_marked_until_feed(t, tail);
        assert(all.skip(1) =~= t + seq!['\n'] + tail);
        assert(seq![head[0]] + (t + "\n> "@ + rest) =~= head + "\n> "@ + rest);
    }
}

/// A paragraph, a list and raw HTML are written as they are, and a separator as four
/// dashes.
pub proof fn law_source_is_written_as_it_is(source: Seq<char>)
    ensures
        element_text(ElementView::Paragraph { text: source }) == source,
        element_text(ElementView::List { source }) == source,
        element_text(ElementView::RawHtml { html: source }) == source,
        element_text(ElementView::Separator) == seq!['-', '-', '-', '-'],
{
    reveal_strlit("----");
    assert("----"@ =~= seq!['-', '-', '-', '-']);
}

/// One more element of the body stands behind a document, with a blank line between
/// them.
pub proof fn law_body_element_stands_behind(doc: DocumentView, element: Spanned<ElementView>)
    ensures
        document_text(DocumentView { body: doc.body.push(element), ..doc }) == (if document_text(
            doc,
        ).len() == 0 && document::document_flat(doc).len() == 0 {
            element_text(element.node) + seq!['\n']
        } else {
            document_text(doc) + seq!['\n'] + element_text(element.node) + seq!['\n']
        }),
{
    reveal_strlit("\n");
    reveal_strlit("\n\n");
    let flat = document::document_flat(doc);
    let longer = DocumentView { body: doc.body.push(element), ..doc };
    let all = document::document_flat(longer);
    assert(document::separator_part(longer) == document::separator_part(doc));
    assert(all =~= flat.push(element));
    let parts = element_texts(flat);
    let more = element_texts(all);
    assert(more =~= parts.push(element_text(element.node)));
    assert(more.drop_last() =~= parts);
    if parts.len() == 0 {
        assert(text::joined(more, "\n\n"@) =~= element_text(element.node));
        assert(document_text(longer) =~= element_text(element.node) + seq!['\n']);
    } else {
        assert(document_text(longer) =~= document_text(doc) + seq!['\n'] + element_text(
            element.node,
        ) + seq!['\n']);
    }
}

/// The markdown of texts that follow one another with blank lines between them.
proof fn lemma_joined_around(a: Seq<Seq<char>>, b: Seq<Seq<char>>, sep: Seq<char>)
    requires
        a.len() > 0,
        b.len() > 0,
    ensures
        text::joined(a + b, sep) == text::joined(a, sep) + sep + text::joined(b, sep),
    decreases b.len(),
{
    assert((a + b).drop_last() =~= a + b.drop_last());
    assert((a + b).last() == b.last());
    if b.len() == 1 {
        assert(a + b.drop_last() =~= a);
    } else {
        lemma_joined_around(a, b.drop_last(), sep);
        assert(text::joined(a + b, sep) =~= text::joined(a, sep) + sep + text::joined(b, sep));
    }
}

/// A document whose preamble and body both hold something is written as a document with
/// the preamble alone, the separator where there is one, and a document with the body
/// alone, with blank lines between them.
pub proof fn law_document_is_written_part_by_part(doc: DocumentView)
    requires
        document::slots_flat(doc.preamble).len() > 0,
        doc.body.len() > 0,
    ensures
        ({
            let head = document_text(
                DocumentView { body: seq![], has_separator: false, ..doc },
            );
            let tail = document_text(
                DocumentView { preamble: seq![], has_separator: false, ..doc },
            );
            document_text(doc) == (if doc.has_separator {
                head + seq!['\n'] + seq!['-', '-', '-', '-'] + seq!['\n', '\n'] + tail
            } else {
                head + seq!['\n'] + tail
            })
        }),
{
    reveal_strlit("\n");
    reveal_strlit("\n\n");
    reveal_strlit("----");
    let head_doc = DocumentView { body: seq![], has_separator: false, ..doc };
    let tail_doc = DocumentView { preamble: seq![], has_separator: false, ..doc };
    let first = document::slots_flat(doc.preamble);
    assert(document::document_flat(head_doc) =~= first);
    assert(document::slots_flat(tail_doc.preamble) =~= seq![]);
    assert(document::document_flat(tail_doc) =~= doc.body);
    let a = element_texts(first);
    let b = element_texts(doc.body);
    let sep = "\n\n"@;
    let flat = document::document_flat(doc);
    lemma_joined_around(a, b, sep);
    if doc.has_separator {
        let rule = document::separator_part(doc);
        let r = element_texts(rule);
        assert(r =~= seq!["----"@]);
        assert(text::joined(r, sep) =~= "----"@);
        assert(element_texts(flat) =~= a + r + b);
        lemma_joined_around(a + r, b, sep);
        lemma_joined_around(a, r, sep);
        assert(document_text(doc) =~= document_text(head_doc) + seq!['\n'] + seq![
            '-',
            '-',
            '-',
            '-',
        ] + seq!['\n', '\n'] + document_text(tail_doc));
    } else {
        assert(element_texts(flat) =~= a + b);
        assert(document_text(doc) =~= document_text(head_doc) + seq!['\n'] + document_text(
            tail_doc,
        ));
    }
}

/// The slots of a preamble are written in order, with blank lines between them. Each of
/// them holds something.
pub proof fn law_slots_are_written_in_order(
    doc: DocumentView,
    first: Seq<document::SlotView>,
    second: Seq<document::SlotView>,
)
    requires
        document::slots_flat(first).len() > 0,
        document::slots_flat(second).len() > 0,
    ensures
        ({
            let empty = DocumentView { body: seq![], has_separator: false, ..doc };
            document_text(DocumentView { preamble: first + second, ..empty }) == document_text(
                DocumentView { preamble: first, ..empty },
            ) + seq!['\n'] + document_text(DocumentView { preamble: second, ..empty })
        }),
{
    reveal_strlit("\n");
    reveal_strlit("\n\n");
    let empty = DocumentView { body: seq![], has_separator: false, ..doc };
    let one = DocumentView { preamble: first, ..empty };
    let two = DocumentView { preamble: second, ..empty };
    let both = DocumentView { preamble: first + second, ..empty };
    lemma_slots_flat_concat(first, second);
    let a = document::slots_flat(first);
    let b = document::slots_flat(second);
    assert(document::document_flat(one) =~= a);
    assert(document::document_flat(two) =~= b);
    assert(document::document_flat(both) =~= a + b);
    assert(element_texts(a + b) =~= element_texts(a) + element_texts(b));
    lemma_joined_around(element_texts(a), element_texts(b), "\n\n"@);
    assert(document_text(both) =~= document_text(one) + seq!['\n'] + document_text(two));
}

/// The elements of two lists of slots are those of the first and then those of the
/// second.
proof fn lemma_slots_flat_concat(a: Seq<document::SlotView>, b: Seq<document::SlotView>)
    ensures
        document::slots_flat(a + b) == document::slots_flat(a) + document::slots_flat(b),
    decreases b.len(),
{
    if b.len() == 0 {
        assert(a + b =~= a);
        assert(document::slots_flat(a) + document::slots_flat(b) =~= document::slots_flat(a));
    } else {
        assert((a + b).drop_last() =~= a + b.drop_last());
        lemma_slots_flat_concat(a, b.drop_last());
        assert(document::slots_flat(a + b) =~= document::slots_flat(a) + document::slots_flat(b));
    }
}

/// A slot is written as its elements one behind the other: a document with one slot
/// reads as one with the same elements for its body.
pub proof fn law_slot_is_written_as_its_elements(doc: DocumentView, slot: document::SlotView)
    ensures
        document_text(
            DocumentView { preamble: seq![slot], body: seq![], has_separator: false, ..doc },
        ) == document_text(
            DocumentView { preamble: seq![], body: slot.elements, has_separator: false, ..doc },
        ),
{
    let one = DocumentView { preamble: seq![slot], body: seq![], has_separator: false, ..doc };
    let two = DocumentView {
        preamble: seq![],
        body: slot.elements,
        has_separator: false,
        ..doc
    };
    assert(one.preamble.drop_last() =~= seq![]);
    assert(document::slots_flat(one.preamble.drop_last()) =~= seq![]);
    assert(document::slots_flat(one.preamble) =~= slot.elements);
    assert(document::slots_flat(two.preamble) =~= seq![]);
    assert(document::document_flat(one) =~= document::document_flat(two));
}

} // verus!
