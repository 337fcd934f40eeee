//! The items of markdown lists.

use vstd::prelude::*;

use crate::text;
use crate::text::{lines, strip_prefix, trim};

verus! {

/// The item that a line of a list holds: the text behind `- ` or `* `, if there
/// is any.
pub open spec fn item_of(line: Seq<char>) -> Option<Seq<char>> {
    let t = text::trimmed(line);
    let rest = if text::begins_with(t, "- "@) || text::begins_with(t, "* "@) {
        text::trimmed(t.skip(2))
    } else {
        seq![]
    };
    if rest.len() > 0 {
        Some(rest)
    } else {
        None
    }
}

/// The items that the lines of a list hold, in order.
pub open spec fn items_of(lines: Seq<Seq<char>>) -> Seq<Seq<char>>
    decreases lines.len(),
{
    if lines.len() == 0 {
        seq![]
    } else {
        let before = items_of(lines.drop_last());
        match item_of(lines.last()) {
            Some(item) => before.push(item),
            None => before,
        }
    }
}

/// The item that a line of a list holds.
fn line_item(line: &str) -> (r: Option<String>)
    ensures
        text::opt_text(r) == item_of(line@),
{
    proof {
        reveal_strlit("- ");
        reveal_strlit("* ");
    }
    let t = trim(line);
    let rest = match strip_prefix(t.as_str(), "- ") {
        Some(rest) => Some(rest),
        None => strip_prefix(t.as_str(), "* "),
    };
    match rest {
        Some(rest) => {
            let item = trim(rest.as_str());
            if item.as_str().is_empty() {
                None
            } else {
                Some(item)
            }
        },
        None => None,
    }
}

/// Parse a raw markdown list source string into individual item text strings.
///
/// An item stands behind `- ` or `* `; the white space around it is not part of
/// it. Lines without an item are passed over.
pub fn parse_list_items(source: &str) -> (r: Vec<String>)
    ensures
        text::texts(r@) == items_of(text::lines_of(source@)),
{
    let all = lines(source);
    let ghost views = text::texts(all@);
    let mut items: Vec<String> = Vec::new();
    let mut i: usize = 0;
    proof {
        assert(views.take(0) =~= seq![]);
        assert(text::texts(items@) =~= seq![]);
    }
    while i < all.len()
        invariant
            i <= all.len(),
            views == text::texts(all@),
            text::texts(items@) == items_of(views.take(i as int)),
        decreases all.len() - i,
    {
        proof {
            assert(views.take(i + 1).drop_last() == views.take(i as int));
            assert(views.take(i + 1).last() == all@[i as int]@);
        }
        if let Some(item) = line_item(all[i].as_str()) {
            let ghost before = items@;
            items.push(item);
            proof {
                assert(text::texts(items@) =~= text::texts(before).push(item@));
            }
        }
        i += 1;
    }
    proof {
        assert(views.take(i as int) == views);
    }
    items
}

/// The items of lines are those of the first and then those of the others.
proof fn lemma_items_of_first(line: Seq<char>, rest: Seq<Seq<char>>)
    ensures
        items_of(seq![line] + rest) == items_of(seq![line]) + items_of(rest),
    decreases rest.len(),
{
    let all = seq![line] + rest;
    if rest.len() == 0 {
        assert(all =~= seq![line]);
        assert(items_of(seq![line]) + items_of(rest) =~= items_of(seq![line]));
    } else {
        lemma_items_of_first(line, rest.drop_last());
        assert(all.drop_last() =~= seq![line] + rest.drop_last());
        assert(all.last() == rest.last());
        assert(items_of(all) =~= items_of(seq![line]) + items_of(rest));
    }
}

/// A carriage return at the end of a line is no part of its item.
proof fn lemma_item_without_cr(line: Seq<char>)
    ensures
        item_of(text::without_cr(line)) == item_of(line),
{
    if line.len() > 0 && line.last() == '\r' {
        text::lemma_trimmed_white_end(line.drop_last(), '\r');
        assert(line.drop_last().push('\r') =~= line);
    }
}

/// The items of a line that is the only one.
proof fn lemma_items_of_one(line: Seq<char>)
    ensures
        items_of(seq![line]) == (match item_of(line) {
            Some(item) => seq![item],
            None => seq![],
        }),
{
    assert(seq![line].drop_last() =~= seq![]);
    assert(items_of(seq![]) =~= seq![]);
    assert(items_of(seq![line]) =~= match item_of(line) {
        Some(item) => seq![item],
        None => seq![],
    });
}

/// The items of two texts that a line feed joins are those of the first text and
/// then those of the second.
pub proof fn law_items_of_joined_texts(a: Seq<char>, b: Seq<char>)
    ensures
        items_of(text::lines_of(a + seq!['\n'] + b)) == items_of(text::lines_of(a)) + items_of(
            text::lines_of(b),
        ),
    decreases a.len(),
{
    let all = a + seq!['\n'] + b;
    let n = text::first_index(a, '\n');
    text::lemma_first_index(a, '\n');
    assert forall|k: int| 0 <= k < n implies all[k] != '\n' by {
        assert(all[k] == a[k]);
    }
    if n < a.len() {
        assert(all[n] == a[n]);
        text::lemma_first_index_is(all, '\n', n);
        let tail = a.skip(n + 1);
        assert(all.skip(n + 1) =~= tail + seq!['\n'] + b);
        assert(all.take(n) =~= a.take(n));
        law_items_of_joined_texts(tail, b);
        let line = text::without_cr(a.take(n));
        lemma_items_of_first(line, text::lines_of(all.skip(n + 1)));
        lemma_items_of_first(line, text::lines_of(tail));
        assert(items_of(seq![line]) + (items_of(text::lines_of(tail)) + items_of(
            text::lines_of(b),
        )) =~= items_of(seq![line]) + items_of(text::lines_of(tail)) + items_of(text::lines_of(b)));
    } else {
        assert(all[n] == '\n');
        text::lemma_first_index_is(all, '\n', n);
        assert(all.skip(n + 1) =~= b);
        assert(all.take(n) =~= a);
        let line = text::without_cr(a);
        lemma_items_of_first(line, text::lines_of(b));
        lemma_item_without_cr(a);
        lemma_items_of_one(line);
        if a.len() == 0 {
            reveal_strlit("- ");
            reveal_strlit("* ");
            assert(text::trimmed(a) =~= a);
            assert(items_of(text::lines_of(a)) =~= seq![]);
            assert(items_of(seq![line]) + items_of(text::lines_of(b)) =~= items_of(
                text::lines_of(a),
            ) + items_of(text::lines_of(b)));
        } else {
            lemma_items_of_one(a);
            assert(text::lines_of(a) =~= seq![a]);
        }
    }
}

/// No item is empty, or has white space around it.
pub proof fn law_items_are_trimmed(lines: Seq<Seq<char>>, i: int)
    requires
        0 <= i < items_of(lines).len(),
    ensures
        items_of(lines)[i].len() > 0,
        text::trimmed(items_of(lines)[i]) == items_of(lines)[i],
    decreases lines.len(),
{
    let before = items_of(lines.drop_last());
    if i < before.len() {
        law_items_are_trimmed(lines.drop_last(), i);
        assert(items_of(lines)[i] == before[i]);
    } else {
        text::lemma_trimmed_twice(text::trimmed(lines.last()).skip(2));
    }
}

/// A line that begins with no marker gives no item, wherever it stands.
pub proof fn law_other_lines_give_no_item(
    before: Seq<Seq<char>>,
    line: Seq<char>,
    after: Seq<Seq<char>>,
)
    requires
        !text::begins_with(text::trimmed(line), "- "@),
        !text::begins_with(text::trimmed(line), "* "@),
    ensures
        items_of(before + seq![line] + after) == items_of(before + after),
    decreases after.len(),
{
    let with = before + seq![line] + after;
    let without = before + after;
    if after.len() == 0 {
        assert(with.drop_last() =~= without);
    } else {
        law_other_lines_give_no_item(before, line, after.drop_last());
        assert(with.drop_last() =~= before + seq![line] + after.drop_last());
        assert(without.drop_last() =~= before + after.drop_last());
        assert(with.last() == after.last());
        assert(without.last() == after.last());
    }
}

/// The text behind a marker is the item of its line, however far the line is indented
/// and whatever white space stands around the text.
pub proof fn law_item_stands_behind_its_marker(
    indent: Seq<char>,
    before: Seq<char>,
    item: Seq<char>,
    after: Seq<char>,
    star: bool,
)
    requires
        forall|k: int| 0 <= k < indent.len() ==> text::is_white(#[trigger] indent[k]) && indent[k] != '\n',
        forall|k: int| 0 <= k < before.len() ==> text::is_white(#[trigger] before[k]) && before[k] != '\n',
        forall|k: int| 0 <= k < after.len() ==> text::is_white(#[trigger] after[k]) && after[k] != '\n',
        item.len() > 0,
        !item.contains('\n'),
        !text::is_white(item[0]),
        !text::is_white(item.last()),
    ensures
        items_of(
            text::lines_of(
                indent + (if star {
                    seq!['*', ' ']
                } else {
                    seq!['-', ' ']
                }) + before + item + after,
            ),
        ) == seq![item],
{
    reveal_strlit("- ");
    reveal_strlit("* ");
    let mark = if star {
        seq!['*', ' ']
    } else {
        seq!['-', ' ']
    };
    let line = indent + mark + before + item + after;
    let core = mark + before + item;
    assert(line =~= indent + core + after);
    text::law_trimming_takes_white_space(indent, core, after);
    assert(core.skip(2) =~= before + item);
    if star {
        assert(core.take(2) =~= "* "@);
        assert(!text::begins_with(core, "- "@)) by {
            if text::begins_with(core, "- "@) {
                assert(core.take(2)[0] == '-');
            }
        }
    } else {
        assert(core.take(2) =~= "- "@);
    }
    text::law_trimming_takes_white_space(before, item, seq![]);
    assert(before + item + Seq::<char>::empty() =~= before + item);
    assert(item_of(line) == Some(item));
    assert forall|k: int| 0 <= k < line.len() implies line[k] != '\n' by {
        let n = indent.len();
        if k < n {
            assert(line[k] == indent[k]);
        } else if k >= n + 2 && k < n + 2 + before.len() {
            assert(line[k] == before[k - n - 2]);
        } else if k >= n + 2 + before.len() && k < n + 2 + before.len() + item.len() {
            let at = k - n - 2 - before.len();
            assert(line[k] == item[at]);
            assert(item.contains(item[at]));
        } else if k >= n + 2 + before.len() + item.len() {
            assert(line[k] == after[k - n - 2 - before.len() - item.len()]);
        }
    }
    text::lemma_first_index_is(line, '\n', line.len() as int);
    assert(text::lines_of(line) =~= seq![line]);
    lemma_items_of_one(line);
}

/// A line of a list that is empty behind its marker gives no item.
pub proof fn law_empty_item_is_none(white: Seq<char>)
    requires
        forall|k: int| 0 <= k < white.len() ==> text::is_white(#[trigger] white[k]),
    ensures
        item_of(seq!['-'] + white) is None,
        item_of(seq!['*'] + white) is None,
        item_of(white) is None,
{
    reveal_strlit("- ");
    reveal_strlit("* ");
    text::law_trimming_takes_white_space(seq![], seq!['-'], white);
    text::law_trimming_takes_white_space(seq![], seq!['*'], white);
    text::law_trimming_takes_white_space(white, seq![], seq![]);
    assert(Seq::<char>::empty() + seq!['-'] + white =~= seq!['-'] + white);
    assert(Seq::<char>::empty() + seq!['*'] + white =~= seq!['*'] + white);
    assert(white + Seq::<char>::empty() + Seq::<char>::empty() =~= white);
}

} // verus!
