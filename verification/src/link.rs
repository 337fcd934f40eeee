//! Link expressions: links whose target is a keyword path or a threaded
//! expression.

use vstd::prelude::*;

use crate::decimal;
use crate::decimal::parse_usize;
use crate::document;
use crate::document::{
    LinkOp, LinkOpView, LinkTarget, LinkTargetView, LinkText, LinkTextView, RefsToTarget, RefsToView,
};
use crate::error::ContentError;
use crate::serializer;
use crate::text;
use crate::text::{
    replace, same, split_whitespace, starts_with, strip_prefix, strip_suffix, trim, trim_matches,
    trim_start_matches,
};

verus! {

/// Whether a destination is a link expression and not a plain URL.
pub open spec fn is_expression(href: Seq<char>) -> bool {
    ||| text::begins_with(href, "(->"@)
    ||| text::begins_with(href, ":"@)
}

/// Whether a destination is a link expression and not a plain URL.
pub fn is_link_expression(href: &str) -> (r: bool)
    ensures
        r == is_expression(href@),
{
    starts_with(href, "(->") || starts_with(href, ":")
}

/// What the text part of a link expression says.
pub open spec fn link_text_of(text: Seq<char>) -> LinkTextView {
    if text.len() == 0 {
        LinkTextView::Empty
    } else if text[0] == '(' {
        LinkTextView::Static(text)
    } else {
        LinkTextView::Binding(text)
    }
}

/// Parse the text part of a link expression `[text](target)`.
///
/// An empty text is `LinkText::Empty`; one that begins with `(` is
/// `LinkText::Static`; any other is a binding name.
pub fn parse_link_text(text: &str) -> (r: LinkText)
    ensures
        r@ == link_text_of(text@),
{
    if text.is_empty() {
        LinkText::Empty
    } else if text.get_char(0) == '(' {
        LinkText::Static(text.to_owned())
    } else {
        LinkText::Binding(text.to_owned())
    }
}

/// The token that a run of characters makes: none where it is white space.
pub open spec fn token_in(current: Seq<char>) -> Seq<Seq<char>> {
    let t = text::trimmed(current);
    if t.len() == 0 {
        seq![]
    } else {
        seq![t]
    }
}

/// The tokens of an expression body: bare words, and balanced groups in
/// brackets. `depth` brackets are open and `current` has been read since the
/// last token.
pub open spec fn tokens_from(s: Seq<char>, depth: nat, current: Seq<char>) -> Seq<Seq<char>>
    decreases s.len(),
{
    if s.len() == 0 {
        token_in(current)
    } else if s[0] == '(' {
        tokens_from(s.skip(1), depth + 1, current.push('('))
    } else if s[0] == ')' {
        if depth <= 1 {
            token_in(current.push(')')) + tokens_from(s.skip(1), 0, seq![])
        } else {
            tokens_from(s.skip(1), (depth - 1) as nat, current.push(')'))
        }
    } else if depth == 0 && (s[0] == ' ' || s[0] == '\t' || s[0] == '\n') {
        token_in(current) + tokens_from(s.skip(1), 0, seq![])
    } else {
        tokens_from(s.skip(1), depth, current.push(s[0]))
    }
}

/// The tokens of an expression body.
pub open spec fn expression_tokens(s: Seq<char>) -> Seq<Seq<char>> {
    tokens_from(s, 0, seq![])
}

/// Puts the token that `current` makes behind the others, if it makes one.
fn push_token(tokens: &mut Vec<String>, current: &str)
    ensures
        text::texts(final(tokens)@) == text::texts(old(tokens)@) + token_in(current@),
{
    let t = trim(current);
    if !t.as_str().is_empty() {
        let ghost before = tokens@;
        tokens.push(t);
        proof {
            assert(text::texts(tokens@) =~= text::texts(before) + seq![t@]);
        }
    } else {
        proof {
            assert(text::texts(tokens@) =~= text::texts(old(tokens)@) + Seq::<Seq<char>>::empty());
        }
    }
}

/// Split an expression body into tokens: bare words and balanced `(...)`
/// groups.
pub fn split_expression_tokens(s: &str) -> (r: Vec<String>)
    ensures
        text::texts(r@) == expression_tokens(s@),
{
    let v = text::chars_of(s);
    let mut tokens: Vec<String> = Vec::new();
    let mut depth: usize = 0;
    let mut current = String::new();
    let mut i: usize = 0;
    proof {
        assert(s@.skip(0) == s@);
        assert(text::texts(tokens@) + expression_tokens(s@) == expression_tokens(s@));
        assert(current@ =~= seq![]);
    }
    while i < v.len()
        invariant
            i <= v.len(),
            depth <= i,
            v@ == s@,
            text::texts(tokens@) + tokens_from(s@.skip(i as int), depth as nat, current@)
                == expression_tokens(s@),
        decreases v.len() - i,
    {
        let c = v[i];
        let ghost rest = s@.skip(i as int);
        let ghost done = text::texts(tokens@);
        proof {
            assert(rest[0] == c);
            assert(rest.skip(1) == s@.skip(i + 1));
        }
        if c == '(' {
            depth += 1;
            current.push(c);
        } else if c == ')' {
            current.push(c);
            if depth <= 1 {
                depth = 0;
                let ghost tail = tokens_from(rest.skip(1), 0, seq![]);
                push_token(&mut tokens, current.as_str());
                proof {
                    assert(done + (token_in(current@) + tail) == done + token_in(current@) + tail);
                }
                current = String::new();
                proof {
                    assert(current@ =~= seq![]);
                }
            } else {
                depth -= 1;
            }
        } else if depth == 0 && (c == ' ' || c == '\t' || c == '\n') {
            let ghost tail = tokens_from(rest.skip(1), 0, seq![]);
            push_token(&mut tokens, current.as_str());
            proof {
                assert(done + (token_in(current@) + tail) == done + token_in(current@) + tail);
            }
            current = String::new();
            proof {
                assert(current@ =~= seq![]);
            }
        } else {
            current.push(c);
        }
        i += 1;
    }
    push_token(&mut tokens, current.as_str());
    tokens
}

/// The words of the inside of a bracketed operation, or nothing where `s` is
/// not bracketed.
pub open spec fn op_words(s: Seq<char>) -> Option<Seq<Seq<char>>> {
    match text::without_prefix(s, "("@) {
        Some(rest) => match text::without_suffix(rest, ")"@) {
            Some(inner) => Some(text::words_of(text::trimmed(inner))),
            None => None,
        },
        None => None,
    }
}

/// The operation that the words of a bracketed group write, or the message
/// that says why they write none.
pub open spec fn op_of_words(parts: Seq<Seq<char>>) -> Result<LinkOpView, Seq<char>> {
    if parts.len() == 0 {
        Err("empty operation"@)
    } else if parts[0] == "sort-by"@ {
        if parts.len() < 2 {
            Err("sort-by requires a field"@)
        } else {
            Ok(
                LinkOpView::SortBy {
                    field: text::trim_start_char(parts[1], ':'),
                    descending: parts.len() > 2 && parts[2] == ":desc"@,
                },
            )
        }
    } else if parts[0] == "take"@ {
        if parts.len() < 2 {
            Err("take requires a count"@)
        } else {
            match decimal::parsed_unsigned(parts[1], usize::MAX as nat) {
                Some(n) => Ok(LinkOpView::Take(n as usize)),
                None => Err("take argument is not a number: "@ + parts[1]),
            }
        }
    } else if parts[0] == "filter"@ {
        if parts.len() < 2 {
            Err("filter requires a field"@)
        } else if parts.len() < 3 {
            Err("filter requires a value"@)
        } else {
            Ok(
                LinkOpView::Filter {
                    field: text::trim_start_char(parts[1], ':'),
                    value: text::trim_end_char(text::trim_start_char(parts[2], '"'), '"'),
                },
            )
        }
    } else if parts[0] == "refs-to"@ {
        if parts.len() < 2 {
            Err("refs-to requires an argument"@)
        } else if parts[1] == "self"@ {
            Ok(LinkOpView::RefsTo(RefsToView::SelfRef))
        } else {
            Ok(
                LinkOpView::RefsTo(
                    RefsToView::Url(
                        text::trim_end_char(text::trim_start_char(parts[1], '"'), '"'),
                    ),
                ),
            )
        }
    } else {
        Err("unknown link operation: "@ + parts[0])
    }
}

/// The operation that a group such as `(sort-by :field :desc)` writes, or the
/// message that says why it writes none.
pub open spec fn link_op_of(s: Seq<char>) -> Result<LinkOpView, Seq<char>> {
    match op_words(s) {
        Some(parts) => op_of_words(parts),
        None => Err("expected parenthesised op, got: "@ + s),
    }
}

/// A parse error with the given message.
fn fail(message: &str) -> (r: ContentError)
    ensures
        r@ == message@,
{
    ContentError::ParseError(message.to_owned())
}

/// A parse error whose message is `message` with `detail` behind it.
fn fail_with(message: &str, detail: &str) -> (r: ContentError)
    ensures
        r@ == message@ + detail@,
{
    let mut out = message.to_owned();
    out.append(detail);
    ContentError::ParseError(out)
}

/// Parse a single operation group like `(sort-by :field :desc)` or `(take 4)`.
pub fn parse_link_op(s: &str) -> (r: Result<LinkOp, ContentError>)
    ensures
        match r {
            Ok(op) => link_op_of(s@) == Ok::<LinkOpView, Seq<char>>(op@),
            Err(e) => link_op_of(s@) == Err::<LinkOpView, Seq<char>>(e@),
        },
{
    let inner = match strip_prefix(s, "(") {
        Some(rest) => strip_suffix(rest.as_str(), ")"),
        None => None,
    };
    let inner = match inner {
        Some(inner) => trim(inner.as_str()),
        None => {
            return Err(fail_with("expected parenthesised op, got: ", s));
        },
    };
    let parts = split_whitespace(inner.as_str());
    let ghost words = text::texts(parts@);
    proof {
        assert(op_words(s@) == Some(words));
        assert forall|k: int| 0 <= k < parts.len() implies words[k] == (#[trigger] parts@[k])@ by {}
    }
    if parts.len() == 0 {
        return Err(fail("empty operation"));
    }
    if same(parts[0].as_str(), "sort-by") {
        if parts.len() < 2 {
            return Err(fail("sort-by requires a field"));
        }
        let field = trim_start_matches(parts[1].as_str(), ':');
        let descending = parts.len() > 2 && same(parts[2].as_str(), ":desc");
        Ok(LinkOp::SortBy { field, descending })
    } else if same(parts[0].as_str(), "take") {
        if parts.len() < 2 {
            return Err(fail("take requires a count"));
        }
        match parse_usize(parts[1].as_str()) {
            Some(n) => Ok(LinkOp::Take(n)),
            None => Err(fail_with("take argument is not a number: ", parts[1].as_str())),
        }
    } else if same(parts[0].as_str(), "filter") {
        if parts.len() < 2 {
            return Err(fail("filter requires a field"));
        }
        let field = trim_start_matches(parts[1].as_str(), ':');
        if parts.len() < 3 {
            return Err(fail("filter requires a value"));
        }
        let value = trim_matches(parts[2].as_str(), '"');
        Ok(LinkOp::Filter { field, value })
    } else if same(parts[0].as_str(), "refs-to") {
        if parts.len() < 2 {
            return Err(fail("refs-to requires an argument"));
        }
        if same(parts[1].as_str(), "self") {
            Ok(LinkOp::RefsTo(RefsToTarget::SelfRef))
        } else {
            Ok(LinkOp::RefsTo(RefsToTarget::Url(trim_matches(parts[1].as_str(), '"'))))
        }
    } else {
        Err(fail_with("unknown link operation: ", parts[0].as_str()))
    }
}

/// The operations that the given tokens write, one each, or the message for
/// the first token that writes none.
pub open spec fn link_ops_of(tokens: Seq<Seq<char>>) -> Result<Seq<LinkOpView>, Seq<char>>
    decreases tokens.len(),
{
    if tokens.len() == 0 {
        Ok(seq![])
    } else {
        match link_ops_of(tokens.drop_last()) {
            Err(e) => Err(e),
            Ok(ops) => match link_op_of(text::trimmed(tokens.last())) {
                Err(e) => Err(e),
                Ok(op) => Ok(ops.push(op)),
            },
        }
    }
}

/// The inside of a threaded expression, or nothing where it is not closed.
pub open spec fn thread_body(href: Seq<char>) -> Option<Seq<char>> {
    let rest = if text::begins_with(href, "(->>"@) {
        href.skip(4)
    } else {
        href.skip(3)
    };
    match text::without_suffix(rest, ")"@) {
        Some(inner) => Some(text::trimmed(inner)),
        None => None,
    }
}

/// The target that a destination writes, spaces decoded, or the message that
/// says why it writes none.
pub open spec fn link_target_of(raw: Seq<char>) -> Result<LinkTargetView, Seq<char>> {
    let href = text::replaced(raw, "%20"@, " "@);
    if text::begins_with(href, ":"@) {
        Ok(LinkTargetView::PathRef(href.skip(1)))
    } else if !text::begins_with(href, "(->"@) {
        Err("unrecognised link expression: "@ + href)
    } else {
        match thread_body(href) {
            None => Err("malformed thread expression: "@ + href),
            Some(inner) => {
                let tokens = expression_tokens(inner);
                if tokens.len() == 0 {
                    Err("thread expression has no source"@)
                } else {
                    match link_ops_of(tokens.skip(1)) {
                        Err(e) => Err(e),
                        Ok(operations) => Ok(
                            LinkTargetView::ThreadExpr {
                                source: text::trim_start_char(tokens[0], ':'),
                                operations,
                            },
                        ),
                    }
                }
            },
        }
    }
}

/// A message for a prefix of the tokens is the message for all of them.
proof fn lemma_link_ops_fail(tokens: Seq<Seq<char>>, k: int)
    requires
        0 <= k <= tokens.len(),
        link_ops_of(tokens.take(k)) is Err,
    ensures
        link_ops_of(tokens) == link_ops_of(tokens.take(k)),
    decreases tokens.len(),
{
    if k == tokens.len() {
        assert(tokens.take(k) == tokens);
    } else {
        assert(tokens.drop_last().take(k) == tokens.take(k));
        lemma_link_ops_fail(tokens.drop_last(), k);
    }
}

/// Parse the destination of a link expression.
///
/// `:keyword/path` is a path reference without the leading `:`; `(->> ...)` and
/// `(-> ...)` are threaded expressions. `%20` stands for a space, so that a
/// CommonMark destination can hold an expression with spaces.
pub fn parse_link_target(href: &str) -> (r: Result<LinkTarget, ContentError>)
    ensures
        match r {
            Ok(target) => link_target_of(href@) == Ok::<LinkTargetView, Seq<char>>(target@),
            Err(e) => link_target_of(href@) == Err::<LinkTargetView, Seq<char>>(e@),
        },
{
    proof {
        reveal_strlit("%20");
        reveal_strlit("(->>");
        reveal_strlit("(->");
        reveal_strlit(":");
    }
    let decoded = replace(href, "%20", " ");
    if let Some(path) = strip_prefix(decoded.as_str(), ":") {
        return Ok(LinkTarget::PathRef(path));
    }
    if !starts_with(decoded.as_str(), "(->") {
        return Err(fail_with("unrecognised link expression: ", decoded.as_str()));
    }
    let rest = match strip_prefix(decoded.as_str(), "(->>") {
        Some(rest) => Some(rest),
        None => strip_prefix(decoded.as_str(), "(->"),
    };
    let inner = match rest {
        Some(rest) => strip_suffix(rest.as_str(), ")"),
        None => None,
    };
    let inner = match inner {
        Some(inner) => trim(inner.as_str()),
        None => {
            return Err(fail_with("malformed thread expression: ", decoded.as_str()));
        },
    };
    let tokens = split_expression_tokens(inner.as_str());
    let ghost words = text::texts(tokens@);
    if tokens.len() == 0 {
        return Err(fail("thread expression has no source"));
    }
    let source = trim_start_matches(tokens[0].as_str(), ':');
    let mut operations: Vec<LinkOp> = Vec::new();
    let mut i: usize = 1;
    let ghost tail = words.skip(1);
    proof {
        assert(tail.take(0) =~= seq![]);
        assert(document::op_views(operations@) =~= seq![]);
    }
    while i < tokens.len()
        invariant
            1 <= i <= tokens.len(),
            tail == text::texts(tokens@).skip(1),
            link_ops_of(tail.take(i - 1)) == Ok::<Seq<LinkOpView>, Seq<char>>(
                document::op_views(operations@),
            ),
            link_ops_of(tail) is Err ==> link_target_of(href@) == Err::<LinkTargetView, Seq<char>>(
                link_ops_of(tail)->Err_0,
            ),
        decreases tokens.len() - i,
    {
        let token = trim(tokens[i].as_str());
        proof {
            assert(tail.take(i as int).drop_last() == tail.take(i - 1));
            assert(tail.take(i as int).last() == tokens@[i as int]@);
        }
        match parse_link_op(token.as_str()) {
            Ok(op) => {
                let ghost before = operations@;
                operations.push(op);
                proof {
                    assert(document::op_views(operations@) =~= document::op_views(before).push(op@));
                }
            },
            Err(e) => {
                proof {
                    lemma_link_ops_fail(tail, i as int);
                }
                return Err(e);
            },
        }
        i += 1;
    }
    proof {
        assert(tail.take(i - 1) == tail);
    }
    Ok(LinkTarget::ThreadExpr { source, operations })
}

/// A text that decoding has left is not changed by decoding it again.
proof fn lemma_decoded_twice(s: Seq<char>)
    ensures
        text::replaced(text::replaced(s, "%20"@, " "@), "%20"@, " "@) == text::replaced(
            s,
            "%20"@,
            " "@,
        ),
    decreases s.len(),
{
    reveal_strlit("%20");
    reveal_strlit(" ");
    let p = "%20"@;
    let q = " "@;
    let r = text::replaced(s, p, q);
    if s.len() > 0 {
        if text::begins_with(s, p) {
            let tail = s.skip(3);
            lemma_decoded_twice(tail);
            let rest = text::replaced(tail, p, q);
            assert(r =~= q + rest);
            assert(r[0] == ' ');
            if text::begins_with(r, p) {
                assert(r.take(3)[0] == p[0]);
            }
            assert(r.skip(1) =~= rest);
            assert(text::replaced(r, p, q) =~= r);
        } else {
            let tail = s.skip(1);
            lemma_decoded_twice(tail);
            let rest = text::replaced(tail, p, q);
            assert(r =~= seq![s[0]] + rest);
            assert(r.skip(1) =~= rest);
            if text::begins_with(r, p) {
                lemma_decoded_start(s);
                assert(text::begins_with(s, p));
            }
            assert(text::replaced(r, p, q) =~= r);
        }
    }
}

/// Decoding makes no new sign for a space at the start of a text.
proof fn lemma_decoded_start(s: Seq<char>)
    requires
        s.len() > 0,
        text::begins_with(text::replaced(s, "%20"@, " "@), "%20"@),
    ensures
        text::begins_with(s, "%20"@),
{
    reveal_strlit("%20");
    reveal_strlit(" ");
    let p = "%20"@;
    let q = " "@;
    let r = text::replaced(s, p, q);
    assert(r.take(3)[0] == '%' && r.take(3)[1] == '2' && r.take(3)[2] == '0');
    assert(r[0] == '%' && r[1] == '2' && r[2] == '0');
    if !text::begins_with(s, p) {
        assert(r =~= seq![s[0]] + text::replaced(s.skip(1), p, q));
        let r1 = text::replaced(s.skip(1), p, q);
        assert(r1[0] == '2' && r1[1] == '0');
        assert(s.skip(1).len() > 0);
        if text::begins_with(s.skip(1), p) {
            assert(r1[0] == ' ');
        }
        assert(r1 =~= seq![s.skip(1)[0]] + text::replaced(s.skip(1).skip(1), p, q));
        let r2 = text::replaced(s.skip(1).skip(1), p, q);
        assert(r2[0] == '0');
        assert(s.skip(1).skip(1).len() > 0);
        if text::begins_with(s.skip(1).skip(1), p) {
            assert(r2[0] == ' ');
        }
        assert(s[0] == '%' && s[1] == '2' && s[2] == '0');
        assert(s.take(3) =~= p);
    }
}

/// Whether spaces are decoded before a destination is parsed does not matter.
pub proof fn law_decoding_first_changes_nothing(href: Seq<char>)
    ensures
        link_target_of(text::replaced(href, "%20"@, " "@)) == link_target_of(href),
{
    lemma_decoded_twice(href);
}

/// Decoding leaves a start without a percent sign as it is.
proof fn lemma_decoded_prefix(start: Seq<char>, s: Seq<char>)
    requires
        !start.contains('%'),
    ensures
        text::replaced(start + s, "%20"@, " "@) == start + text::replaced(s, "%20"@, " "@),
    decreases start.len(),
{
    reveal_strlit("%20");
    let p = "%20"@;
    let all = start + s;
    if start.len() == 0 {
        assert(all =~= s);
        assert(start + text::replaced(s, p, " "@) =~= text::replaced(s, p, " "@));
    } else {
        let tail = start.skip(1);
        assert(!tail.contains('%')) by {
            if tail.contains('%') {
                let k = choose|k: int| 0 <= k < tail.len() && tail[k] == '%';
                assert(start[k + 1] == '%');
            }
        }
        lemma_decoded_prefix(tail, s);
        assert(all.skip(1) =~= tail + s);
        assert(all[0] == start[0]);
        assert(start.contains(start[0]));
        if text::begins_with(all, p) {
            assert(all.take(3)[0] == '%');
        }
        assert(seq![start[0]] + (tail + text::replaced(s, p, " "@)) =~= start + text::replaced(
            s,
            p,
            " "@,
        ));
    }
}

/// Both arrows write the same target, or neither writes one.
pub proof fn law_both_arrows_agree(body: Seq<char>)
    ensures
        ({
            let one = link_target_of("(-> "@ + body + ")"@);
            let two = link_target_of("(->> "@ + body + ")"@);
            one is Ok || two is Ok ==> one == two
        }),
{
    reveal_strlit("(-> ");
    reveal_strlit("(->> ");
    reveal_strlit("(->");
    reveal_strlit("(->>");
    reveal_strlit(":");
    let inner = body + ")"@;
    let rest = text::replaced(inner, "%20"@, " "@);
    let a = "(-> "@;
    let b = "(->> "@;
    assert(a + body + ")"@ =~= a + inner);
    assert(b + body + ")"@ =~= b + inner);
    lemma_decoded_prefix(a, inner);
    lemma_decoded_prefix(b, inner);
    let one = a + rest;
    let two = b + rest;
    assert(one[0] == '(' && one[1] == '-' && one[2] == '>' && one[3] == ' ');
    assert(two[0] == '(' && two[1] == '-' && two[2] == '>' && two[3] == '>');
    assert(!text::begins_with(one, ":"@)) by {
        if text::begins_with(one, ":"@) {
            assert(one.take(1)[0] == ':');
        }
    }
    assert(!text::begins_with(two, ":"@)) by {
        if text::begins_with(two, ":"@) {
            assert(two.take(1)[0] == ':');
        }
    }
    assert(one.take(3) =~= "(->"@);
    assert(two.take(3) =~= "(->"@);
    assert(two.take(4) =~= "(->>"@);
    assert(!text::begins_with(one, "(->>"@)) by {
        if text::begins_with(one, "(->>"@) {
            assert(one.take(4)[3] == '>');
        }
    }
    assert(one.skip(3) =~= two.skip(4));
}

/// Whether a text can stand for a name, a value or a URL in an expression: it has no
/// white space, brackets, quotes, percent signs, and no colon at its start.
pub open spec fn is_plain_word(s: Seq<char>) -> bool {
    &&& forall|k: int|
        0 <= k < s.len() ==> !text::is_white(#[trigger] s[k]) && s[k] != '(' && s[k] != ')' && s[k]
            != '"' && s[k] != '%'
    &&& s.len() > 0 ==> s[0] != ':'
}

/// Whether what an operation names are plain words.
pub open spec fn is_plain_op(op: LinkOpView) -> bool {
    match op {
        LinkOpView::SortBy { field, .. } => is_plain_word(field),
        LinkOpView::Take(_) => true,
        LinkOpView::Filter { field, value } => is_plain_word(field) && is_plain_word(value),
        LinkOpView::RefsTo(RefsToView::SelfRef) => true,
        LinkOpView::RefsTo(RefsToView::Url(url)) => is_plain_word(url),
    }
}

/// Whether a text holds neither white space nor brackets nor percent signs.
spec fn is_solid(s: Seq<char>) -> bool {
    forall|k: int|
        0 <= k < s.len() ==> !text::is_white(#[trigger] s[k]) && s[k] != '(' && s[k] != ')' && s[k]
            != '%'
}

/// What is inside of the brackets of an operation, word by word.
spec fn words_in(op: LinkOpView) -> Seq<Seq<char>> {
    match op {
        LinkOpView::SortBy { field, descending } => seq![
            "sort-by"@,
            seq![':'] + field,
            if descending {
                ":desc"@
            } else {
                ":asc"@
            },
        ],
        LinkOpView::Take(n) => seq!["take"@, decimal::digits(n as nat)],
        LinkOpView::Filter { field, value } => seq![
            "filter"@,
            seq![':'] + field,
            seq!['"'] + value + seq!['"'],
        ],
        LinkOpView::RefsTo(RefsToView::SelfRef) => seq!["refs-to"@, "self"@],
        LinkOpView::RefsTo(RefsToView::Url(url)) => seq![
            "refs-to"@,
            seq!['"'] + url + seq!['"'],
        ],
    }
}

/// The text of an operation is its words with spaces between them, in brackets.
proof fn lemma_op_is_its_words(op: LinkOpView)
    requires
        is_plain_op(op),
    ensures
        serializer::op_text(op) == seq!['('] + text::joined(words_in(op), seq![' ']) + seq![')'],
        words_in(op).len() >= 2,
        forall|k: int|
            0 <= k < words_in(op).len() ==> is_solid(#[trigger] words_in(op)[k])
                && words_in(op)[k].len() > 0,
{
    reveal_strlit("(sort-by :");
    reveal_strlit(" :desc)");
    reveal_strlit(" :asc)");
    reveal_strlit("(take ");
    reveal_strlit(")");
    reveal_strlit("(filter :");
    reveal_strlit(" \"");
    reveal_strlit("\")");
    reveal_strlit("(refs-to self)");
    reveal_strlit("(refs-to \"");
    reveal_strlit("sort-by");
    reveal_strlit(":desc");
    reveal_strlit(":asc");
    reveal_strlit("take");
    reveal_strlit("filter");
    reveal_strlit("refs-to");
    reveal_strlit("self");
    let words = words_in(op);
    let space = seq![' '];
    let whole = seq!['('] + text::joined(words, space) + seq![')'];
    let front = words.drop_last();
    assert(text::joined(words, space) == text::joined(front, space) + space + words.last());
    if words.len() == 2 {
        assert(text::joined(front, space) == words[0]);
    } else {
        assert(text::joined(front, space) == text::joined(front.drop_last(), space) + space
            + words[1]);
        assert(text::joined(front.drop_last(), space) == words[0]);
    }
    match op {
        LinkOpView::SortBy { field, descending } => {
            assert(serializer::op_text(op) =~= whole);
            assert(is_solid(words[1]));
        },
        LinkOpView::Take(n) => {
            assert(serializer::op_text(op) =~= whole);
            decimal::lemma_digits_value(n as nat);
            let digits = decimal::digits(n as nat);
            assert forall|k: int| 0 <= k < digits.len() implies !text::is_white(#[trigger] digits[k])
                && digits[k] != '(' && digits[k] != ')' && digits[k] != '%' by {
                assert(decimal::is_digit(digits[k]));
            }
        },
        LinkOpView::Filter { field, value } => {
            assert(serializer::op_text(op) =~= whole);
            assert(is_solid(words[1]));
            assert(is_solid(words[2]));
        },
        LinkOpView::RefsTo(RefsToView::SelfRef) => {
            assert(serializer::op_text(op) =~= whole);
        },
        LinkOpView::RefsTo(RefsToView::Url(url)) => {
            assert(serializer::op_text(op) =~= whole);
            assert(is_solid(words[1]));
        },
    }
}

/// The words of texts without white space that are joined by spaces are those texts.
proof fn lemma_words_of_joined(words: Seq<Seq<char>>)
    requires
        words.len() > 0,
        forall|k: int| 0 <= k < words.len() ==> is_solid(#[trigger] words[k]) && words[k].len() > 0,
    ensures
        text::words_of(text::joined(words, seq![' '])) == words,
        text::joined(words, seq![' ']).len() > 0,
        !text::is_white(text::joined(words, seq![' '])[0]),
        !text::is_white(text::joined(words, seq![' ']).last()),
    decreases words.len(),
{
    let all = text::joined(words, seq![' ']);
    assert(is_solid(words[0]));
    if words.len() == 1 {
        text::lemma_one_word(words[0]);
        assert(words =~= seq![words[0]]);
    } else {
        let rest = words.skip(1);
        assert forall|k: int| 0 <= k < rest.len() implies is_solid(#[trigger] rest[k])
            && rest[k].len() > 0 by {
            assert(rest[k] == words[k + 1]);
        }
        lemma_words_of_joined(rest);
        text::lemma_joined_first(words, seq![' ']);
        text::lemma_first_word(words[0], text::joined(rest, seq![' ']));
        assert(seq![words[0]] + rest =~= words);
        assert(all[0] == words[0][0]);
        assert(all.last() == text::joined(rest, seq![' ']).last());
    }
}

/// The words of the text of an operation are its words.
proof fn lemma_words_of_op(op: LinkOpView)
    requires
        is_plain_op(op),
    ensures
        op_words(serializer::op_text(op)) == Some(words_in(op)),
{
    reveal_strlit("(");
    reveal_strlit(")");
    let written = serializer::op_text(op);
    let inner = text::joined(words_in(op), seq![' ']);
    lemma_op_is_its_words(op);
    lemma_words_of_joined(words_in(op));
    assert(written.take(1) =~= "("@);
    let rest = written.skip(1);
    assert(rest =~= inner + seq![')']);
    assert(rest.skip(rest.len() - 1) =~= ")"@);
    assert(rest.take(rest.len() - 1) =~= inner);
    text::lemma_trimmed_is(inner);
}

/// A sign before a text that does not begin with it is taken away alone.
proof fn lemma_sign_before(c: char, s: Seq<char>)
    requires
        s.len() > 0 ==> s[0] != c,
    ensures
        text::trim_start_char(seq![c] + s, c) == s,
{
    let all = seq![c] + s;
    assert(all[0] == c);
    assert(all.skip(1) =~= s);
    assert(text::trim_start_char(s, c) == s);
}

/// Quotes around a text without quotes are taken away.
proof fn lemma_quotes_around(s: Seq<char>)
    requires
        forall|k: int| 0 <= k < s.len() ==> #[trigger] s[k] != '"',
    ensures
        text::trim_end_char(
            text::trim_start_char(seq!['"'] + s + seq!['"'], '"'),
            '"',
        ) == s,
{
    let all = seq!['"'] + s + seq!['"'];
    let rest = s + seq!['"'];
    assert(all[0] == '"');
    assert(all.skip(1) =~= rest);
    if s.len() > 0 {
        assert(rest[0] == s[0]);
        assert(text::trim_start_char(rest, '"') == rest);
        assert(rest.drop_last() =~= s);
        assert(text::trim_end_char(s, '"') == s);
    } else {
        assert(rest[0] == '"');
        assert(rest.skip(1) =~= s);
        assert(text::trim_start_char(s, '"') == s);
        assert(text::trim_start_char(rest, '"') == s);
    }
}

/// An operation that is written down reads back as that operation.
pub proof fn law_operation_reads_back(op: LinkOpView)
    requires
        is_plain_op(op),
    ensures
        link_op_of(serializer::op_text(op)) == Ok::<LinkOpView, Seq<char>>(op),
{
    lemma_words_of_op(op);
    reveal_strlit("sort-by");
    reveal_strlit("take");
    reveal_strlit("filter");
    reveal_strlit("refs-to");
    reveal_strlit("self");
    reveal_strlit(":desc");
    reveal_strlit(":asc");
    let words = words_in(op);
    assert("sort-by"@.len() == 7 && "take"@.len() == 4 && "filter"@.len() == 6 && "refs-to"@.len()
        == 7 && "self"@.len() == 4 && ":desc"@.len() == 5 && ":asc"@.len() == 4);
    assert("sort-by"@[0] == 's' && "refs-to"@[0] == 'r');
    match op {
        LinkOpView::SortBy { field, descending } => {
            lemma_sign_before(':', field);
        },
        LinkOpView::Take(n) => {
            decimal::law_unsigned_numeral_reads_back(n as nat, usize::MAX as nat);
        },
        LinkOpView::Filter { field, value } => {
            lemma_sign_before(':', field);
            lemma_quotes_around(value);
        },
        LinkOpView::RefsTo(RefsToView::SelfRef) => {},
        LinkOpView::RefsTo(RefsToView::Url(url)) => {
            lemma_quotes_around(url);
            assert(words[1][0] == '"');
            assert("self"@[0] == 's');
        },
    }
}

/// The page that holds an expression is what `self` stands for, in whatever white space
/// the words of the operation stand.
pub proof fn law_self_is_the_page_itself(words: Seq<Seq<char>>, s: Seq<char>)
    requires
        op_words(s) == Some(words),
        words.len() >= 2,
        words[0] == "refs-to"@,
    ensures
        link_op_of(s) is Ok,
        link_op_of(s) == Ok::<LinkOpView, Seq<char>>(LinkOpView::RefsTo(RefsToView::SelfRef))
            <==> words[1] == "self"@,
{
    reveal_strlit("sort-by");
    reveal_strlit("take");
    reveal_strlit("filter");
    reveal_strlit("refs-to");
    assert("sort-by"@[0] == 's' && "refs-to"@[0] == 'r');
    assert("take"@.len() == 4 && "filter"@.len() == 6 && "refs-to"@.len() == 7);
}

/// A word is gathered character by character.
proof fn lemma_tokens_of_word(w: Seq<char>, rest: Seq<char>, depth: nat, current: Seq<char>)
    requires
        forall|k: int| 0 <= k < w.len() ==> #[trigger] w[k] != '(' && w[k] != ')',
        depth == 0 ==> forall|k: int| 0 <= k < w.len() ==> !text::is_white(#[trigger] w[k]),
    ensures
        tokens_from(w + rest, depth, current) == tokens_from(rest, depth, current + w),
    decreases w.len(),
{
    let all = w + rest;
    if w.len() == 0 {
        assert(all =~= rest);
        assert(current + w =~= current);
    } else {
        let t = w.skip(1);
        assert forall|k: int| 0 <= k < t.len() implies #[trigger] t[k] != '(' && t[k] != ')' by {
            assert(t[k] == w[k + 1]);
        }
        if depth == 0 {
            assert forall|k: int| 0 <= k < t.len() implies !text::is_white(#[trigger] t[k]) by {
                assert(t[k] == w[k + 1]);
            }
            assert(!text::is_white(w[0]));
        }
        assert(all[0] == w[0]);
        assert(all.skip(1) =~= t + rest);
        lemma_tokens_of_word(t, rest, depth, current.push(w[0]));
        assert(current.push(w[0]) + t =~= current + w);
    }
}

/// A group in brackets is a token.
proof fn lemma_tokens_of_group(inner: Seq<char>, rest: Seq<char>)
    requires
        forall|k: int| 0 <= k < inner.len() ==> #[trigger] inner[k] != '(' && inner[k] != ')',
    ensures
        tokens_from(seq!['('] + inner + seq![')'] + rest, 0, seq![]) == seq![
            seq!['('] + inner + seq![')'],
        ] + tokens_from(rest, 0, seq![]),
{
    let none = Seq::<char>::empty();
    let group = seq!['('] + inner + seq![')'];
    let all = group + rest;
    assert(all[0] == '(');
    let behind = all.skip(1);
    assert(behind =~= inner + (seq![')'] + rest));
    assert(none.push('(') =~= seq!['(']);
    lemma_tokens_of_word(inner, seq![')'] + rest, 1, seq!['(']);
    let end = seq![')'] + rest;
    assert(end[0] == ')');
    assert(end.skip(1) =~= rest);
    let current = seq!['('] + inner;
    assert(current.push(')') =~= group);
    text::lemma_trimmed_is(group);
    assert(token_in(group) =~= seq![group]);
}

/// The text of operations begins with that of the first.
proof fn lemma_ops_text_first(ops: Seq<LinkOpView>)
    requires
        ops.len() > 0,
    ensures
        serializer::ops_text(ops) == seq![' '] + serializer::op_text(ops[0])
            + serializer::ops_text(ops.skip(1)),
    decreases ops.len(),
{
    reveal_strlit(" ");
    assert(" "@ =~= seq![' ']);
    let front = ops.drop_last();
    if ops.len() == 1 {
        assert(front =~= seq![]);
        assert(ops.skip(1) =~= seq![]);
        assert(serializer::ops_text(front) =~= seq![]);
        assert(serializer::ops_text(ops) =~= seq![' '] + serializer::op_text(ops[0])
            + serializer::ops_text(ops.skip(1)));
    } else {
        lemma_ops_text_first(front);
        assert(front.skip(1) =~= ops.skip(1).drop_last());
        assert(ops.skip(1).last() == ops.last());
        assert(serializer::ops_text(ops) =~= seq![' '] + serializer::op_text(ops[0])
            + serializer::ops_text(ops.skip(1)));
    }
}

/// The texts of operations.
spec fn op_texts(ops: Seq<LinkOpView>) -> Seq<Seq<char>> {
    ops.map_values(|op: LinkOpView| serializer::op_text(op))
}

/// The tokens behind a word are the texts of the operations that follow it.
proof fn lemma_tokens_of_ops(current: Seq<char>, ops: Seq<LinkOpView>)
    requires
        forall|k: int| 0 <= k < ops.len() ==> is_plain_op(#[trigger] ops[k]),
    ensures
        tokens_from(serializer::ops_text(ops), 0, current) == token_in(current) + op_texts(ops),
    decreases ops.len(),
{
    let none = Seq::<char>::empty();
    if ops.len() == 0 {
        assert(serializer::ops_text(ops) =~= none);
        assert(token_in(current) + op_texts(ops) =~= token_in(current));
    } else {
        let rest = ops.skip(1);
        assert forall|k: int| 0 <= k < rest.len() implies is_plain_op(#[trigger] rest[k]) by {
            assert(rest[k] == ops[k + 1]);
        }
        let op = ops[0];
        assert(is_plain_op(op));
        lemma_ops_text_first(ops);
        lemma_op_is_its_words(op);
        lemma_tokens_of_ops(none, rest);
        assert(text::trimmed(none) =~= none);
        assert(token_in(none) =~= seq![]);
        let all = serializer::ops_text(ops);
        let tail = serializer::ops_text(rest);
        assert(all[0] == ' ');
        assert(all.skip(1) =~= serializer::op_text(op) + tail);
        let inner = text::joined(words_in(op), seq![' ']);
        lemma_joined_without_brackets(words_in(op));
        lemma_tokens_of_group(inner, tail);
        assert(op_texts(ops) =~= seq![serializer::op_text(op)] + op_texts(rest));
        assert(tokens_from(all, 0, current) =~= token_in(current) + op_texts(ops));
    }
}

/// Words without brackets make no brackets when they are joined, nor percent signs.
proof fn lemma_joined_without_brackets(words: Seq<Seq<char>>)
    requires
        forall|k: int| 0 <= k < words.len() ==> is_solid(#[trigger] words[k]),
    ensures
        forall|k: int|
            0 <= k < text::joined(words, seq![' ']).len() ==> #[trigger] text::joined(
                words,
                seq![' '],
            )[k] != '(' && text::joined(words, seq![' '])[k] != ')' && text::joined(
                words,
                seq![' '],
            )[k] != '%',
    decreases words.len(),
{
    let all = text::joined(words, seq![' ']);
    if words.len() == 1 {
        assert(is_solid(words[0]));
    } else if words.len() > 1 {
        let front = words.drop_last();
        assert forall|k: int| 0 <= k < front.len() implies is_solid(#[trigger] front[k]) by {
            assert(front[k] == words[k]);
        }
        lemma_joined_without_brackets(front);
        let start = text::joined(front, seq![' ']);
        assert(is_solid(words[words.len() - 1]));
        assert forall|k: int| 0 <= k < all.len() implies #[trigger] all[k] != '(' && all[k] != ')'
            && all[k] != '%' by {
            if k < start.len() {
                assert(all[k] == start[k]);
            } else if k > start.len() {
                assert(all[k] == words.last()[k - start.len() - 1]);
            }
        }
    }
}

/// The texts of operations read back as these.
proof fn lemma_ops_read_back(ops: Seq<LinkOpView>)
    requires
        forall|k: int| 0 <= k < ops.len() ==> is_plain_op(#[trigger] ops[k]),
    ensures
        link_ops_of(op_texts(ops)) == Ok::<Seq<LinkOpView>, Seq<char>>(ops),
    decreases ops.len(),
{
    if ops.len() == 0 {
        assert(ops =~= seq![]);
    } else {
        let front = ops.drop_last();
        assert forall|k: int| 0 <= k < front.len() implies is_plain_op(#[trigger] front[k]) by {
            assert(front[k] == ops[k]);
        }
        lemma_ops_read_back(front);
        let op = ops.last();
        assert(is_plain_op(ops[ops.len() - 1]));
        assert(op_texts(ops).drop_last() =~= op_texts(front));
        lemma_op_is_its_words(op);
        text::lemma_trimmed_is(serializer::op_text(op));
        law_operation_reads_back(op);
        assert(front.push(op) =~= ops);
    }
}

/// A text without percent signs is what decoding makes of its encoding.
proof fn lemma_encoded_reads_back(s: Seq<char>)
    requires
        !s.contains('%'),
    ensures
        text::replaced(text::replaced(s, " "@, "%20"@), "%20"@, " "@) == s,
    decreases s.len(),
{
    reveal_strlit(" ");
    reveal_strlit("%20");
    let p = "%20"@;
    let q = " "@;
    if s.len() > 0 {
        let t = s.skip(1);
        assert(!t.contains('%')) by {
            if t.contains('%') {
                let k = choose|k: int| 0 <= k < t.len() && t[k] == '%';
                assert(s[k + 1] == '%');
            }
        }
        lemma_encoded_reads_back(t);
        let rest = text::replaced(t, q, p);
        if s[0] == ' ' {
            assert(s.take(1) =~= q);
            assert(text::begins_with(s, q));
            let all = p + rest;
            assert(text::replaced(s, q, p) == all);
            assert(all.take(3) =~= p);
            assert(all.skip(3) =~= rest);
            assert(q + t =~= s);
        } else {
            assert(!text::begins_with(s, q)) by {
                if text::begins_with(s, q) {
                    assert(s.take(1)[0] == ' ');
                }
            }
            let all = seq![s[0]] + rest;
            assert(text::replaced(s, q, p) == all);
            assert(s.contains(s[0]));
            assert(!text::begins_with(all, p)) by {
                if text::begins_with(all, p) {
                    assert(all.take(3)[0] == '%');
                }
            }
            assert(all.skip(1) =~= rest);
            assert(seq![s[0]] + t =~= s);
        }
    }
}

/// The text of operations holds no percent signs.
proof fn lemma_ops_without_percent(ops: Seq<LinkOpView>)
    requires
        forall|k: int| 0 <= k < ops.len() ==> is_plain_op(#[trigger] ops[k]),
    ensures
        !serializer::ops_text(ops).contains('%'),
        ops.len() > 0 ==> serializer::ops_text(ops).len() > 0 && serializer::ops_text(ops).last()
            == ')',
    decreases ops.len(),
{
    reveal_strlit(" ");
    let all = serializer::ops_text(ops);
    if ops.len() > 0 {
        let front = ops.drop_last();
        assert forall|k: int| 0 <= k < front.len() implies is_plain_op(#[trigger] front[k]) by {
            assert(front[k] == ops[k]);
        }
        lemma_ops_without_percent(front);
        let op = ops.last();
        assert(is_plain_op(ops[ops.len() - 1]));
        lemma_op_is_its_words(op);
        lemma_joined_without_brackets(words_in(op));
        let start = serializer::ops_text(front);
        let inner = text::joined(words_in(op), seq![' ']);
        if all.contains('%') {
            let k = choose|k: int| 0 <= k < all.len() && all[k] == '%';
            if k < start.len() {
                assert(start[k] == '%');
                assert(start.contains('%'));
            } else if k > start.len() {
                let m = k - start.len() - 1;
                assert(serializer::op_text(op)[m] == '%');
                if 0 < m <= inner.len() {
                    assert(inner[m - 1] == '%');
                }
            }
        }
    }
}

/// A threaded expression that is written down reads back with its source and all its
/// operations, in order.
pub proof fn law_thread_reads_back(source: Seq<char>, operations: Seq<LinkOpView>)
    requires
        is_plain_word(source),
        forall|k: int| 0 <= k < operations.len() ==> is_plain_op(#[trigger] operations[k]),
    ensures
        link_target_of(
            serializer::target_text(LinkTargetView::ThreadExpr { source, operations }),
        ) == Ok::<LinkTargetView, Seq<char>>(LinkTargetView::ThreadExpr { source, operations }),
{
    reveal_strlit("(->> :");
    reveal_strlit("(->>");
    reveal_strlit("(->");
    reveal_strlit(")");
    reveal_strlit(":");
    let ops = serializer::ops_text(operations);
    let plain = "(->> :"@ + source + ops + ")"@;
    lemma_ops_without_percent(operations);
    assert(!plain.contains('%')) by {
        if plain.contains('%') {
            let k = choose|k: int| 0 <= k < plain.len() && plain[k] == '%';
            if 6 <= k < 6 + source.len() {
                assert(source[k - 6] == '%');
            } else if 6 + source.len() <= k < plain.len() - 1 {
                assert(ops[k - 6 - source.len()] == '%');
                assert(ops.contains('%'));
            }
        }
    }
    lemma_encoded_reads_back(plain);
    assert(plain[0] == '(');
    assert(!text::begins_with(plain, ":"@)) by {
        if text::begins_with(plain, ":"@) {
            assert(plain.take(1)[0] == ':');
        }
    }
    assert(plain.take(3) =~= "(->"@);
    assert(plain.take(4) =~= "(->>"@);
    let rest = plain.skip(4);
    let name = seq![':'] + source;
    let body = name + ops;
    assert(rest =~= seq![' '] + body + seq![')']);
    assert(rest.skip(rest.len() - 1) =~= ")"@);
    let inner = rest.take(rest.len() - 1);
    assert(inner =~= seq![' '] + body);
    assert(inner[0] == ' ');
    assert(inner.skip(1) =~= body);
    assert(body[0] == ':');
    assert(!text::is_white(body.last())) by {
        if operations.len() > 0 {
            assert(body.last() == ops.last());
        } else {
            assert(ops =~= seq![]);
            if source.len() > 0 {
                assert(body.last() == source.last());
                assert(source[source.len() - 1] == source.last());
            } else {
                assert(body =~= seq![':']);
            }
        }
    }
    assert(text::trimmed(inner) == text::trimmed(body));
    text::lemma_trimmed_is(body);
    assert forall|k: int| 0 <= k < name.len() implies #[trigger] name[k] != '(' && name[k] != ')'
        && !text::is_white(name[k]) by {
        if k > 0 {
            assert(name[k] == source[k - 1]);
        }
    }
    lemma_tokens_of_word(name, ops, 0, seq![]);
    assert(Seq::<char>::empty() + name =~= name);
    lemma_tokens_of_ops(name, operations);
    assert(!text::is_white(name[name.len() - 1]));
    text::lemma_trimmed_is(name);
    let tokens = expression_tokens(body);
    assert(tokens =~= seq![name] + op_texts(operations));
    assert(tokens.skip(1) =~= op_texts(operations));
    lemma_ops_read_back(operations);
    lemma_sign_before(':', source);
}

/// A reference to a path that is written down reads back as that path, spaces included.
pub proof fn law_path_reference_reads_back(path: Seq<char>)
    requires
        !path.contains('%'),
    ensures
        link_target_of(serializer::target_text(LinkTargetView::PathRef(path))) == Ok::<
            LinkTargetView,
            Seq<char>,
        >(LinkTargetView::PathRef(path)),
{
    reveal_strlit(":");
    let plain = ":"@ + path;
    assert(!plain.contains('%')) by {
        if plain.contains('%') {
            let k = choose|k: int| 0 <= k < plain.len() && plain[k] == '%';
            assert(path[k - 1] == '%');
        }
    }
    lemma_encoded_reads_back(plain);
    assert(plain.take(1) =~= ":"@);
    assert(plain.skip(1) =~= path);
}

/// What is written of a target holds no spaces, so that it can stand as the destination
/// of a link, and it is known for an expression.
pub proof fn law_written_target_is_an_expression(target: LinkTargetView)
    ensures
        !serializer::target_text(target).contains(' '),
        is_expression(serializer::target_text(target)),
{
    reveal_strlit(" ");
    reveal_strlit("%20");
    reveal_strlit(":");
    reveal_strlit("(->> :");
    reveal_strlit("(->");
    let plain = match target {
        LinkTargetView::PathRef(path) => ":"@ + path,
        LinkTargetView::ThreadExpr { source, operations } => "(->> :"@ + source
            + serializer::ops_text(operations) + ")"@,
    };
    lemma_no_spaces_left(plain);
    let n: int = if target is PathRef {
        1
    } else {
        3
    };
    assert(!plain.take(n).contains(' ')) by {
        let start = plain.take(n);
        if start.contains(' ') {
            let k = choose|k: int| 0 <= k < start.len() && start[k] == ' ';
            assert(plain[k] == ' ');
        }
    }
    lemma_start_stays(plain, n);
    let written = serializer::target_text(target);
    if target is PathRef {
        assert(written.take(1) =~= ":"@);
    } else {
        assert(written.take(3) =~= "(->"@);
    }
}

/// Encoding leaves no spaces.
proof fn lemma_no_spaces_left(s: Seq<char>)
    ensures
        !text::replaced(s, " "@, "%20"@).contains(' '),
    decreases s.len(),
{
    reveal_strlit(" ");
    reveal_strlit("%20");
    let all = text::replaced(s, " "@, "%20"@);
    if s.len() > 0 {
        let t = s.skip(1);
        lemma_no_spaces_left(t);
        let rest = text::replaced(t, " "@, "%20"@);
        if s[0] == ' ' {
            assert(s.take(1) =~= " "@);
            assert(all == "%20"@ + rest);
        } else {
            assert(!text::begins_with(s, " "@)) by {
                if text::begins_with(s, " "@) {
                    assert(s.take(1)[0] == ' ');
                }
            }
            assert(all == seq![s[0]] + rest);
        }
        if all.contains(' ') {
            let k = choose|k: int| 0 <= k < all.len() && all[k] == ' ';
            let m = all.len() - rest.len();
            if k >= m {
                assert(rest[k - m] == ' ');
                assert(rest.contains(' '));
            }
        }
    }
}

/// A start without spaces stays as it is when spaces are encoded.
proof fn lemma_start_stays(s: Seq<char>, n: int)
    requires
        0 <= n <= s.len(),
        !s.take(n).contains(' '),
    ensures
        text::replaced(s, " "@, "%20"@).len() >= n,
        text::replaced(s, " "@, "%20"@).take(n) == s.take(n),
    decreases n,
{
    reveal_strlit(" ");
    let all = text::replaced(s, " "@, "%20"@);
    if n > 0 {
        assert(s.take(n)[0] == s[0]);
        assert(s.take(n).contains(s[0]));
        assert(!text::begins_with(s, " "@)) by {
            if text::begins_with(s, " "@) {
                assert(s.take(1)[0] == ' ');
            }
        }
        let t = s.skip(1);
        let start = t.take(n - 1);
        assert(!start.contains(' ')) by {
            if start.contains(' ') {
                let k = choose|k: int| 0 <= k < start.len() && start[k] == ' ';
                assert(s.take(n)[k + 1] == ' ');
            }
        }
        lemma_start_stays(t, n - 1);
        let rest = text::replaced(t, " "@, "%20"@);
        assert(all == seq![s[0]] + rest);
        assert(all.take(n) =~= s.take(n)) by {
            assert forall|k: int| 0 <= k < n implies all[k] == s[k] by {
                if k > 0 {
                    assert(rest.take(n - 1)[k - 1] == t.take(n - 1)[k - 1]);
                }
            }
        }
    } else {
        assert(all.take(n) =~= s.take(n));
    }
}

/// The text part of a link expression is kept: an empty one is none, one in brackets a
/// label, and any other the name of a binding. What is written of it reads back.
pub proof fn law_link_text_reads_back(text: Seq<char>)
    ensures
        serializer::link_text_text(link_text_of(text)) == text,
        link_text_of(text) is Empty <==> text.len() == 0,
        link_text_of(text) is Static <==> text.len() > 0 && text[0] == '(',
{
    if text.len() == 0 {
        assert(text =~= seq![]);
    }
}

/// What is no keyword path and no threaded expression is no target, and neither is a
/// threaded expression that is not closed.
pub proof fn law_other_destinations_are_refused(href: Seq<char>)
    requires
        !href.contains('%'),
        href.len() == 0 || href[0] != ':',
        href.len() < 4 || href[0] != '(' || href[1] != '-' || href[2] != '>' || href.last() != ')',
    ensures
        link_target_of(href) is Err,
{
    reveal_strlit(":");
    reveal_strlit("(->");
    reveal_strlit("(->>");
    reveal_strlit(")");
    lemma_decoded_prefix(href, seq![]);
    assert(href + Seq::<char>::empty() =~= href);
    assert(text::replaced(href, "%20"@, " "@) =~= href);
    if text::begins_with(href, ":"@) {
        assert(href.take(1)[0] == ':');
    }
    if text::begins_with(href, "(->"@) {
        assert(href.take(3)[0] == '(' && href.take(3)[1] == '-' && href.take(3)[2] == '>');
        let rest = if text::begins_with(href, "(->>"@) {
            href.skip(4)
        } else {
            href.skip(3)
        };
        if text::finishes_with(rest, ")"@) {
            assert(rest.skip(rest.len() - 1)[0] == ')');
            assert(rest.last() == href.last());
        }
    }
}

/// How the operations are written by hand, for every field, value, URL and number.
pub proof fn law_operations_by_name(field: Seq<char>, value: Seq<char>, n: usize)
    requires
        is_plain_word(field),
        is_plain_word(value),
    ensures
        link_op_of("(refs-to self)"@) == Ok::<LinkOpView, Seq<char>>(
            LinkOpView::RefsTo(RefsToView::SelfRef),
        ),
        link_op_of("(refs-to \""@ + value + "\")"@) == Ok::<LinkOpView, Seq<char>>(
            LinkOpView::RefsTo(RefsToView::Url(value)),
        ),
        link_op_of("(sort-by :"@ + field + " :desc)"@) == Ok::<LinkOpView, Seq<char>>(
            LinkOpView::SortBy { field, descending: true },
        ),
        link_op_of("(sort-by :"@ + field + " :asc)"@) == Ok::<LinkOpView, Seq<char>>(
            LinkOpView::SortBy { field, descending: false },
        ),
        link_op_of("(take "@ + decimal::digits(n as nat) + ")"@) == Ok::<LinkOpView, Seq<char>>(
            LinkOpView::Take(n),
        ),
        link_op_of("(filter :"@ + field + " \""@ + value + "\")"@) == Ok::<LinkOpView, Seq<char>>(
            LinkOpView::Filter { field, value },
        ),
{
    law_operation_reads_back(LinkOpView::RefsTo(RefsToView::SelfRef));
    law_operation_reads_back(LinkOpView::RefsTo(RefsToView::Url(value)));
    law_operation_reads_back(LinkOpView::SortBy { field, descending: true });
    law_operation_reads_back(LinkOpView::SortBy { field, descending: false });
    law_operation_reads_back(LinkOpView::Take(n));
    law_operation_reads_back(LinkOpView::Filter { field, value });
}

/// An operation that lacks an argument, or that has a bad count, is refused with the
/// reason; so is a group that does not stand in brackets.
pub proof fn law_unfinished_operations_are_refused(s: Seq<char>, word: Seq<char>)
    requires
        decimal::parsed_unsigned(word, usize::MAX as nat) is None,
    ensures
        op_of_words(seq![]) == Err::<LinkOpView, Seq<char>>("empty operation"@),
        op_of_words(seq!["sort-by"@]) == Err::<LinkOpView, Seq<char>>("sort-by requires a field"@),
        op_of_words(seq!["take"@]) == Err::<LinkOpView, Seq<char>>("take requires a count"@),
        op_of_words(seq!["take"@, word]) == Err::<LinkOpView, Seq<char>>(
            "take argument is not a number: "@ + word,
        ),
        op_of_words(seq!["filter"@]) == Err::<LinkOpView, Seq<char>>("filter requires a field"@),
        op_of_words(seq!["filter"@, word]) == Err::<LinkOpView, Seq<char>>(
            "filter requires a value"@,
        ),
        op_of_words(seq!["refs-to"@]) == Err::<LinkOpView, Seq<char>>(
            "refs-to requires an argument"@,
        ),
        op_words(s) is None ==> link_op_of(s) == Err::<LinkOpView, Seq<char>>(
            "expected parenthesised op, got: "@ + s,
        ),
{
    reveal_strlit("sort-by");
    reveal_strlit("take");
    reveal_strlit("filter");
    reveal_strlit("refs-to");
    assert("sort-by"@[0] == 's');
    assert("take"@[0] == 't');
    assert("filter"@[0] == 'f');
    assert("refs-to"@[0] == 'r');
}

} // verus!
