//! Character sequences: the string operations the rest of the library is
//! stated over.

use vstd::prelude::*;
use vstd::utf8::*;

verus! {

broadcast use vstd::string::group_string_axioms;

/// `String::push` puts the given character behind the last one.
pub assume_specification[ String::push ](s: &mut String, c: char)
    ensures
        final(s)@ == old(s)@.push(c),
;

/// The characters with the Unicode property `White_Space`.
pub open spec fn is_white(c: char) -> bool {
    ||| '\u{9}' <= c <= '\u{d}'
    ||| c == ' '
    ||| c == '\u{85}'
    ||| c == '\u{a0}'
    ||| c == '\u{1680}'
    ||| '\u{2000}' <= c <= '\u{200a}'
    ||| c == '\u{2028}'
    ||| c == '\u{2029}'
    ||| c == '\u{202f}'
    ||| c == '\u{205f}'
    ||| c == '\u{3000}'
}

/// Whether `c` is white space.
pub fn char_is_white(c: char) -> (r: bool)
    ensures
        r == is_white(c),
{
    ('\u{9}' <= c && c <= '\u{d}') || c == ' ' || c == '\u{85}' || c == '\u{a0}' || c == '\u{1680}'
        || ('\u{2000}' <= c && c <= '\u{200a}') || c == '\u{2028}' || c == '\u{2029}' || c
        == '\u{202f}' || c == '\u{205f}' || c == '\u{3000}'
}

/// The characters of `s`, in order.
pub fn chars_of(s: &str) -> (r: Vec<char>)
    ensures
        r@ == s@,
{
    let mut out: Vec<char> = Vec::new();
    for c in it: s.chars()
        invariant
            out@ == it.seq().take(it.index() as int),
            it.seq() == s@,
    {
        out.push(c);
        proof {
            assert(it.seq().take(it.index() as int + 1) == it.seq().take(it.index() as int).push(c));
        }
    }
    proof {
        assert(s@.take(s@.len() as int) == s@);
    }
    out
}

/// The string that holds the characters of `v` from `from` up to `to`.
pub fn text_between(v: &Vec<char>, from: usize, to: usize) -> (r: String)
    requires
        from <= to <= v.len(),
    ensures
        r@ == v@.subrange(from as int, to as int),
{
    let mut out = String::new();
    let mut i: usize = from;
    while i < to
        invariant
            from <= i <= to <= v.len(),
            out@ == v@.subrange(from as int, i as int),
        decreases to - i,
    {
        out.push(v[i]);
        i += 1;
        proof {
            assert(v@.subrange(from as int, i as int) == v@.subrange(from as int, i - 1).push(
                v@[i - 1],
            ));
        }
    }
    out
}

/// `s` without its leading white space.
pub open spec fn trim_start_of(s: Seq<char>) -> Seq<char>
    decreases s.len(),
{
    if s.len() > 0 && is_white(s[0]) {
        trim_start_of(s.skip(1))
    } else {
        s
    }
}

/// `s` without its trailing white space.
pub open spec fn trim_end_of(s: Seq<char>) -> Seq<char>
    decreases s.len(),
{
    if s.len() > 0 && is_white(s.last()) {
        trim_end_of(s.drop_last())
    } else {
        s
    }
}

/// `s` without its leading and trailing white space.
pub open spec fn trimmed(s: Seq<char>) -> Seq<char> {
    trim_end_of(trim_start_of(s))
}

/// `s` without its leading and trailing white space.
pub fn trim(s: &str) -> (r: String)
    ensures
        r@ == trimmed(s@),
{
    let v = chars_of(s);
    let mut from: usize = 0;
    proof {
        assert(v@.skip(0) == v@);
    }
    while from < v.len() && char_is_white(v[from])
        invariant
            from <= v.len(),
            trim_start_of(v@.skip(from as int)) == trim_start_of(v@),
        decreases v.len() - from,
    {
        proof {
            assert(v@.skip(from as int).skip(1) == v@.skip(from + 1));
        }
        from += 1;
    }
    let mut to: usize = v.len();
    let ghost body = v@.skip(from as int);
    proof {
        assert(body.take(to - from) == body);
        assert(trim_start_of(v@) == body);
    }
    while to > from && char_is_white(v[to - 1])
        invariant
            from <= to <= v.len(),
            body == v@.skip(from as int),
            trim_end_of(body.take(to - from)) == trim_end_of(body),
        decreases to,
    {
        proof {
            assert(body.take(to - from).drop_last() == body.take(to - from - 1));
        }
        to -= 1;
    }
    proof {
        assert(v@.subrange(from as int, to as int) == body.take(to - from));
    }
    text_between(&v, from, to)
}

/// Whether the two strings hold the same characters.
pub fn same(a: &str, b: &str) -> (r: bool)
    ensures
        r == (a@ == b@),
{
    a.to_owned() == b.to_owned()
}

/// Whether `s` has the characters of `p` at index `i`.
pub open spec fn occurs_at(s: Seq<char>, p: Seq<char>, i: int) -> bool {
    0 <= i && i + p.len() <= s.len() && s.subrange(i, i + p.len()) == p
}

/// Whether `s` begins with `p`.
pub open spec fn begins_with(s: Seq<char>, p: Seq<char>) -> bool {
    p.len() <= s.len() && s.take(p.len() as int) == p
}

/// Whether `s` ends with `p`.
pub open spec fn finishes_with(s: Seq<char>, p: Seq<char>) -> bool {
    p.len() <= s.len() && s.skip(s.len() - p.len()) == p
}

/// Whether `v` has the characters of `p` at index `at`.
pub fn matches_at(v: &Vec<char>, at: usize, p: &Vec<char>) -> (r: bool)
    requires
        at <= v.len(),
    ensures
        r == occurs_at(v@, p@, at as int),
{
    if p.len() > v.len() - at {
        return false;
    }
    let mut i: usize = 0;
    while i < p.len()
        invariant
            i <= p.len(),
            at + p.len() <= v.len(),
            forall|k: int| 0 <= k < i ==> v@[at + k] == p@[k],
        decreases p.len() - i,
    {
        if v[at + i] != p[i] {
            proof {
                assert(v@.subrange(at as int, at + p.len())[i as int] == v@[at + i]);
            }
            return false;
        }
        i += 1;
    }
    proof {
        assert(v@.subrange(at as int, at + p.len()) == p@);
    }
    true
}

/// Whether `s` begins with `p`.
pub fn starts_with(s: &str, p: &str) -> (r: bool)
    ensures
        r == begins_with(s@, p@),
{
    let v = chars_of(s);
    let w = chars_of(p);
    proof {
        if p@.len() <= s@.len() {
            assert(s@.subrange(0, p@.len() as int) == s@.take(p@.len() as int));
        }
    }
    matches_at(&v, 0, &w)
}

/// Whether `s` ends with `p`.
pub fn ends_with(s: &str, p: &str) -> (r: bool)
    ensures
        r == finishes_with(s@, p@),
{
    let v = chars_of(s);
    let w = chars_of(p);
    if w.len() > v.len() {
        return false;
    }
    proof {
        assert(s@.subrange(s@.len() - p@.len(), s@.len() as int) == s@.skip(s@.len() - p@.len()));
    }
    matches_at(&v, v.len() - w.len(), &w)
}

/// What is left of `s` behind the prefix `p`, if it has that prefix.
pub open spec fn without_prefix(s: Seq<char>, p: Seq<char>) -> Option<Seq<char>> {
    if begins_with(s, p) {
        Some(s.skip(p.len() as int))
    } else {
        None
    }
}

/// What is left of `s` before the suffix `p`, if it has that suffix.
pub open spec fn without_suffix(s: Seq<char>, p: Seq<char>) -> Option<Seq<char>> {
    if finishes_with(s, p) {
        Some(s.take(s.len() - p.len()))
    } else {
        None
    }
}

/// The view of an optional string.
pub open spec fn opt_text(o: Option<String>) -> Option<Seq<char>> {
    match o {
        Some(s) => Some(s@),
        None => None,
    }
}

/// The views of a sequence of strings.
pub open spec fn texts(v: Seq<String>) -> Seq<Seq<char>> {
    v.map_values(|s: String| s@)
}

/// What is left of `s` behind the prefix `p`, if it has that prefix.
pub fn strip_prefix(s: &str, p: &str) -> (r: Option<String>)
    ensures
        opt_text(r) == without_prefix(s@, p@),
{
    if starts_with(s, p) {
        let v = chars_of(s);
        let n: usize = p.unicode_len();
        proof {
            assert(v@.subrange(n as int, v@.len() as int) == s@.skip(n as int));
        }
        Some(text_between(&v, n, v.len()))
    } else {
        None
    }
}

/// What is left of `s` before the suffix `p`, if it has that suffix.
pub fn strip_suffix(s: &str, p: &str) -> (r: Option<String>)
    ensures
        opt_text(r) == without_suffix(s@, p@),
{
    if ends_with(s, p) {
        let v = chars_of(s);
        let n: usize = v.len() - p.unicode_len();
        proof {
            assert(v@.subrange(0, n as int) == s@.take(n as int));
        }
        Some(text_between(&v, 0, n))
    } else {
        None
    }
}

/// Whether `p` occurs in `s`.
pub open spec fn has_text(s: Seq<char>, p: Seq<char>) -> bool {
    exists|i: int| occurs_at(s, p, i)
}

/// Whether `p` occurs in `s`.
pub fn contains(s: &str, p: &str) -> (r: bool)
    ensures
        r == has_text(s@, p@),
{
    let v = chars_of(s);
    let w = chars_of(p);
    let mut i: usize = 0;
    while i < v.len()
        invariant
            i <= v.len(),
            v@ == s@,
            w@ == p@,
            forall|k: int| 0 <= k < i ==> !occurs_at(s@, p@, k),
        decreases v.len() - i,
    {
        if matches_at(&v, i, &w) {
            return true;
        }
        i += 1;
    }
    matches_at(&v, v.len(), &w)
}

/// `s` with every occurrence of `p`, taken from the left without overlap,
/// replaced by `q`.
pub open spec fn replaced(s: Seq<char>, p: Seq<char>, q: Seq<char>) -> Seq<char>
    decreases s.len(),
{
    if s.len() == 0 || p.len() == 0 {
        s
    } else if begins_with(s, p) {
        q + replaced(s.skip(p.len() as int), p, q)
    } else {
        seq![s[0]] + replaced(s.skip(1), p, q)
    }
}

/// `s` with every occurrence of `p`, taken from the left without overlap,
/// replaced by `q`.
pub fn replace(s: &str, p: &str, q: &str) -> (r: String)
    requires
        p@.len() > 0,
    ensures
        r@ == replaced(s@, p@, q@),
{
    let v = chars_of(s);
    let w = chars_of(p);
    let mut out = String::new();
    let mut i: usize = 0;
    proof {
        assert(s@.skip(0) == s@);
    }
    while i < v.len()
        invariant
            i <= v.len(),
            v@ == s@,
            w@ == p@,
            p@.len() > 0,
            out@ + replaced(s@.skip(i as int), p@, q@) == replaced(s@, p@, q@),
        decreases v.len() - i,
    {
        let ghost rest = s@.skip(i as int);
        let ghost before = out@;
        let hit = matches_at(&v, i, &w);
        proof {
            if p@.len() <= rest.len() {
                assert(rest.take(p@.len() as int) == s@.subrange(i as int, i + p@.len()));
            }
            assert(hit == begins_with(rest, p@));
            assert(rest[0] == s@[i as int]);
        }
        if hit {
            out.append(q);
            i += w.len();
            proof {
                assert(rest.skip(p@.len() as int) == s@.skip(i as int));
                assert(before + (q@ + replaced(s@.skip(i as int), p@, q@)) == out@ + replaced(
                    s@.skip(i as int),
                    p@,
                    q@,
                ));
            }
        } else {
            out.push(v[i]);
            i += 1;
            proof {
                assert(rest.skip(1) == s@.skip(i as int));
                assert(before + (seq![rest[0]] + replaced(s@.skip(i as int), p@, q@)) == out@
                    + replaced(s@.skip(i as int), p@, q@));
            }
        }
    }
    proof {
        assert(s@.skip(i as int) =~= Seq::<char>::empty());
        assert(out@ + Seq::<char>::empty() == out@);
    }
    out
}

/// `s` without the copies of `c` that it begins with.
pub open spec fn trim_start_char(s: Seq<char>, c: char) -> Seq<char>
    decreases s.len(),
{
    if s.len() > 0 && s[0] == c {
        trim_start_char(s.skip(1), c)
    } else {
        s
    }
}

/// `s` without the copies of `c` that it ends with.
pub open spec fn trim_end_char(s: Seq<char>, c: char) -> Seq<char>
    decreases s.len(),
{
    if s.len() > 0 && s.last() == c {
        trim_end_char(s.drop_last(), c)
    } else {
        s
    }
}

/// `s` without the copies of `c` that it begins with.
pub fn trim_start_matches(s: &str, c: char) -> (r: String)
    ensures
        r@ == trim_start_char(s@, c),
{
    let v = chars_of(s);
    let mut from: usize = 0;
    proof {
        assert(v@.skip(0) == v@);
    }
    while from < v.len() && v[from] == c
        invariant
            from <= v.len(),
            trim_start_char(v@.skip(from as int), c) == trim_start_char(v@, c),
        decreases v.len() - from,
    {
        proof {
            assert(v@.skip(from as int).skip(1) == v@.skip(from + 1));
        }
        from += 1;
    }
    proof {
        assert(v@.subrange(from as int, v@.len() as int) == v@.skip(from as int));
    }
    text_between(&v, from, v.len())
}

/// `s` without the copies of `c` that it ends with.
pub fn trim_end_matches(s: &str, c: char) -> (r: String)
    ensures
        r@ == trim_end_char(s@, c),
{
    let v = chars_of(s);
    let mut to: usize = v.len();
    proof {
        assert(v@.take(to as int) == v@);
    }
    while to > 0 && v[to - 1] == c
        invariant
            to <= v.len(),
            trim_end_char(v@.take(to as int), c) == trim_end_char(v@, c),
        decreases to,
    {
        proof {
            assert(v@.take(to as int).drop_last() == v@.take(to - 1));
        }
        to -= 1;
    }
    proof {
        assert(v@.subrange(0, to as int) == v@.take(to as int));
    }
    text_between(&v, 0, to)
}

/// `s` without the copies of `c` at both ends.
pub fn trim_matches(s: &str, c: char) -> (r: String)
    ensures
        r@ == trim_end_char(trim_start_char(s@, c), c),
{
    let t = trim_start_matches(s, c);
    trim_end_matches(&t, c)
}

/// The index of the first `c` in `s`, or the length of `s`.
pub open spec fn first_index(s: Seq<char>, c: char) -> int
    decreases s.len(),
{
    if s.len() == 0 || s[0] == c {
        0
    } else {
        1 + first_index(s.skip(1), c)
    }
}

/// The pieces of `s` between the copies of `c`.
pub open spec fn split_of(s: Seq<char>, c: char) -> Seq<Seq<char>>
    decreases s.len(),
{
    let n = first_index(s, c);
    if 0 <= n < s.len() {
        seq![s.take(n)] + split_of(s.skip(n + 1), c)
    } else {
        seq![s]
    }
}

/// `first_index` names an occurrence with none before it, or the end.
pub proof fn lemma_first_index(s: Seq<char>, c: char)
    ensures
        0 <= first_index(s, c) <= s.len(),
        first_index(s, c) < s.len() ==> s[first_index(s, c)] == c,
        forall|k: int| 0 <= k < first_index(s, c) ==> s[k] != c,
    decreases s.len(),
{
    if s.len() > 0 && s[0] != c {
        lemma_first_index(s.skip(1), c);
        assert forall|k: int| 0 <= k < first_index(s, c) implies s[k] != c by {
            if k > 0 {
                assert(s.skip(1)[k - 1] == s[k]);
            }
        }
    }
}

/// An occurrence of `c` with none before it is the first one.
pub proof fn lemma_first_index_is(s: Seq<char>, c: char, n: int)
    requires
        0 <= n <= s.len(),
        n < s.len() ==> s[n] == c,
        forall|k: int| 0 <= k < n ==> s[k] != c,
    ensures
        first_index(s, c) == n,
{
    lemma_first_index(s, c);
    let m = first_index(s, c);
    if m < n {
        assert(s[m] != c);
    }
    if n < m {
        assert(s[n] != c);
    }
}

/// The first index at or behind `from` that holds `c`, or the length of `v`.
pub fn index_from(v: &Vec<char>, from: usize, c: char) -> (r: usize)
    requires
        from <= v.len(),
    ensures
        from <= r <= v.len(),
        r == from + first_index(v@.skip(from as int), c),
        r < v.len() ==> v@[r as int] == c,
        forall|k: int| from <= k < r ==> v@[k] != c,
{
    let mut i: usize = from;
    while i < v.len() && v[i] != c
        invariant
            from <= i <= v.len(),
            forall|k: int| from <= k < i ==> v@[k] != c,
        decreases v.len() - i,
    {
        i += 1;
    }
    proof {
        let t = v@.skip(from as int);
        assert forall|k: int| 0 <= k < i - from implies t[k] != c by {
            assert(t[k] == v@[from + k]);
        }
        lemma_first_index_is(t, c, i - from);
    }
    i
}

/// The pieces of `s` between the copies of `c`.
pub fn split(s: &str, c: char) -> (r: Vec<String>)
    ensures
        texts(r@) == split_of(s@, c),
{
    let v = chars_of(s);
    let mut out: Vec<String> = Vec::new();
    let mut i: usize = 0;
    proof {
        assert(v@.skip(0) == v@);
        assert(texts(out@) + split_of(v@, c) == split_of(v@, c));
    }
    loop
        invariant
            i <= v.len(),
            v@ == s@,
            texts(out@) + split_of(v@.skip(i as int), c) == split_of(v@, c),
        decreases v.len() - i,
    {
        let n = index_from(&v, i, c);
        let piece = text_between(&v, i, n);
        let ghost before = out@;
        let ghost rest = v@.skip(i as int);
        out.push(piece);
        proof {
            assert(texts(out@) == texts(before).push(piece@));
            assert(rest.take(n - i) == piece@);
        }
        if n == v.len() {
            proof {
                assert(rest.take(n - i) == rest);
                assert(texts(before) + seq![rest] == texts(out@));
            }
            return out;
        }
        i = n + 1;
        proof {
            assert(rest.skip(first_index(rest, c) + 1) == v@.skip(i as int));
            assert(texts(before) + (seq![piece@] + split_of(v@.skip(i as int), c)) == texts(out@)
                + split_of(v@.skip(i as int), c));
        }
    }
}

/// `s` without one carriage return at its end.
pub open spec fn without_cr(s: Seq<char>) -> Seq<char> {
    if s.len() > 0 && s.last() == '\r' {
        s.drop_last()
    } else {
        s
    }
}

/// The lines of `s`: the pieces that a line feed, or a carriage return and a
/// line feed, ends; what follows the last line feed is a line unless it is
/// empty.
pub open spec fn lines_of(s: Seq<char>) -> Seq<Seq<char>>
    decreases s.len(),
{
    let n = first_index(s, '\n');
    if s.len() == 0 {
        seq![]
    } else if 0 <= n < s.len() {
        seq![without_cr(s.take(n))] + lines_of(s.skip(n + 1))
    } else {
        seq![s]
    }
}

/// The lines of `s`, without their ends.
pub fn lines(s: &str) -> (r: Vec<String>)
    ensures
        texts(r@) == lines_of(s@),
{
    let v = chars_of(s);
    let mut out: Vec<String> = Vec::new();
    let mut i: usize = 0;
    proof {
        assert(v@.skip(0) == v@);
        assert(texts(out@) + lines_of(v@) == lines_of(v@));
    }
    while i < v.len()
        invariant
            i <= v.len(),
            v@ == s@,
            texts(out@) + lines_of(v@.skip(i as int)) == lines_of(v@),
        decreases v.len() - i,
    {
        let n = index_from(&v, i, '\n');
        let ghost before = out@;
        let ghost rest = v@.skip(i as int);
        if n == v.len() {
            let piece = text_between(&v, i, n);
            out.push(piece);
            proof {
                assert(piece@ == rest);
                assert(texts(out@) == texts(before).push(piece@));
                assert(texts(before) + seq![rest] == texts(out@));
            }
            return out;
        }
        let stop: usize = if n > i && v[n - 1] == '\r' {
            n - 1
        } else {
            n
        };
        let piece = text_between(&v, i, stop);
        out.push(piece);
        proof {
            let whole = rest.take(n - i);
            assert(n > i ==> whole.last() == v@[n - 1]);
            assert(piece@ == without_cr(whole));
            assert(texts(out@) == texts(before).push(piece@));
        }
        i = n + 1;
        proof {
            assert(rest.skip(first_index(rest, '\n') + 1) == v@.skip(i as int));
            assert(texts(before) + (seq![piece@] + lines_of(v@.skip(i as int))) == texts(out@)
                + lines_of(v@.skip(i as int)));
        }
    }
    proof {
        assert(v@.skip(i as int) =~= Seq::<char>::empty());
        assert(texts(out@) + Seq::<Seq<char>>::empty() == texts(out@));
    }
    out
}

/// The number of characters of `s` before its first white space.
pub open spec fn word_length(s: Seq<char>) -> int
    decreases s.len(),
{
    if s.len() == 0 || is_white(s[0]) {
        0
    } else {
        1 + word_length(s.skip(1))
    }
}

/// A word does not reach past its string, and is not empty where the string
/// does not begin with white space.
pub proof fn lemma_word_length(s: Seq<char>)
    ensures
        0 <= word_length(s) <= s.len(),
        s.len() > 0 && !is_white(s[0]) ==> word_length(s) > 0,
    decreases s.len(),
{
    if s.len() > 0 && !is_white(s[0]) {
        lemma_word_length(s.skip(1));
    }
}

/// Trimming the start takes nothing but the start.
pub proof fn lemma_trim_start_len(s: Seq<char>)
    ensures
        trim_start_of(s).len() <= s.len(),
        trim_start_of(s).len() > 0 ==> !is_white(trim_start_of(s)[0]),
    decreases s.len(),
{
    if s.len() > 0 && is_white(s[0]) {
        lemma_trim_start_len(s.skip(1));
    }
}

/// The runs of characters of `s` that white space parts.
pub open spec fn words_of(s: Seq<char>) -> Seq<Seq<char>>
    decreases s.len(),
{
    let t = trim_start_of(s);
    let n = word_length(t);
    if t.len() == 0 {
        seq![]
    } else {
        proof {
            lemma_trim_start_len(s);
            lemma_word_length(t);
        }
        seq![t.take(n)] + words_of(t.skip(n))
    }
}

/// The runs of characters of `s` that white space parts.
pub fn split_whitespace(s: &str) -> (r: Vec<String>)
    ensures
        texts(r@) == words_of(s@),
{
    let v = chars_of(s);
    let mut out: Vec<String> = Vec::new();
    let mut i: usize = 0;
    proof {
        assert(v@.skip(0) == v@);
        assert(texts(out@) + words_of(v@) == words_of(v@));
    }
    loop
        invariant
            i <= v.len(),
            v@ == s@,
            texts(out@) + words_of(v@.skip(i as int)) == words_of(v@),
        decreases v.len() - i,
    {
        let ghost from = i as int;
        while i < v.len() && char_is_white(v[i])
            invariant
                from <= i <= v.len(),
                trim_start_of(v@.skip(i as int)) == trim_start_of(v@.skip(from)),
            decreases v.len() - i,
        {
            proof {
                assert(v@.skip(i as int).skip(1) == v@.skip(i + 1));
            }
            i += 1;
        }
        let ghost t = v@.skip(i as int);
        proof {
            assert(trim_start_of(v@.skip(from)) == t);
        }
        if i == v.len() {
            proof {
                assert(texts(out@) + Seq::<Seq<char>>::empty() == texts(out@));
            }
            return out;
        }
        let start = i;
        while i < v.len() && !char_is_white(v[i])
            invariant
                start <= i <= v.len(),
                word_length(v@.skip(start as int)) == i - start + word_length(v@.skip(i as int)),
            decreases v.len() - i,
        {
            proof {
                assert(v@.skip(i as int).skip(1) == v@.skip(i + 1));
            }
            i += 1;
        }
        let word = text_between(&v, start, i);
        let ghost before = out@;
        out.push(word);
        proof {
            lemma_word_length(t);
            assert(word_length(v@.skip(i as int)) == 0);
            assert(t.take(i - start) == word@);
            assert(t.skip(i - start) == v@.skip(i as int));
            assert(texts(out@) == texts(before).push(word@));
            assert(texts(before) + (seq![word@] + words_of(v@.skip(i as int))) == texts(out@)
                + words_of(v@.skip(i as int)));
        }
    }
}

/// The strings of `parts` with `sep` between neighbours.
pub open spec fn joined(parts: Seq<Seq<char>>, sep: Seq<char>) -> Seq<char>
    decreases parts.len(),
{
    if parts.len() == 0 {
        seq![]
    } else if parts.len() == 1 {
        parts[0]
    } else {
        joined(parts.drop_last(), sep) + sep + parts.last()
    }
}

/// The strings of `parts` with `sep` between neighbours.
pub fn join(parts: &Vec<String>, sep: &str) -> (r: String)
    ensures
        r@ == joined(texts(parts@), sep@),
{
    let mut out = String::new();
    let mut i: usize = 0;
    while i < parts.len()
        invariant
            i <= parts.len(),
            out@ == joined(texts(parts@).take(i as int), sep@),
        decreases parts.len() - i,
    {
        let ghost whole = texts(parts@).take(i + 1);
        proof {
            assert(whole.drop_last() == texts(parts@).take(i as int));
            assert(whole.last() == parts@[i as int]@);
        }
        if i > 0 {
            out.append(sep);
        }
        out.append(parts[i].as_str());
        proof {
            if i == 0 {
                assert(out@ =~= whole[0]);
            }
        }
        i += 1;
    }
    proof {
        assert(texts(parts@).take(parts@.len() as int) == texts(parts@));
    }
    out
}

/// The text between two byte offsets of `s`, if both are boundaries of
/// characters and the first is not behind the second.
pub open spec fn byte_slice(s: Seq<char>, from: int, to: int) -> Option<Seq<char>> {
    let bytes = encode_utf8(s);
    if 0 <= from <= to <= bytes.len() && is_char_boundary(bytes, from) && is_char_boundary(
        bytes,
        to,
    ) {
        Some(decode_utf8(bytes.subrange(from, to)))
    } else {
        None
    }
}

/// The number of bytes of a string.
pub fn byte_len(s: &str) -> (r: usize)
    ensures
        r == encode_utf8(s@).len(),
{
    s.as_bytes().len()
}

/// The text before the byte offset `at`, which has to be a boundary of
/// characters.
pub fn byte_prefix(s: &str, at: usize) -> (r: &str)
    requires
        is_char_boundary(encode_utf8(s@), at as int),
        at <= encode_utf8(s@).len(),
    ensures
        encode_utf8(r@) == encode_utf8(s@).subrange(0, at as int),
        byte_slice(s@, 0, at as int) == Some(r@),
{
    let (left, _) = s.split_at(at);
    proof {
        encode_utf8_valid_utf8(s@);
        is_char_boundary_start_end_of_seq(encode_utf8(s@));
        encode_utf8_decode_utf8(left@);
    }
    left
}

/// A boundary of characters stays one in a prefix that reaches it.
pub proof fn lemma_boundary_in_prefix(s: Seq<char>, from: int, to: int)
    requires
        0 <= from <= to <= encode_utf8(s).len(),
        is_char_boundary(encode_utf8(s), from),
        is_char_boundary(encode_utf8(s), to),
    ensures
        vstd::utf8::valid_utf8(encode_utf8(s).subrange(0, to)),
        is_char_boundary(encode_utf8(s).subrange(0, to), from),
{
    let bytes = encode_utf8(s);
    let front = bytes.subrange(0, to);
    encode_utf8_valid_utf8(s);
    valid_utf8_split(bytes, to);
    if from == to {
        is_char_boundary_start_end_of_seq(front);
    } else {
        assert(front[from] == bytes[from]);
        is_char_boundary_iff_not_is_continuation_byte(bytes, from);
        is_char_boundary_iff_not_is_continuation_byte(front, from);
    }
}

/// The text between two byte offsets of `s`, if both are boundaries of
/// characters and the first is not behind the second.
pub fn get(s: &str, from: usize, to: usize) -> (r: Option<&str>)
    ensures
        match r {
            Some(t) => byte_slice(s@, from as int, to as int) == Some(t@),
            None => byte_slice(s@, from as int, to as int) is None,
        },
{
    if from > to || to > s.as_bytes().len() || !s.is_char_boundary(from) || !s.is_char_boundary(to) {
        return None;
    }
    let (left, _) = s.split_at(to);
    proof {
        lemma_boundary_in_prefix(s@, from as int, to as int);
        assert(encode_utf8(left@) == encode_utf8(s@).subrange(0, to as int));
    }
    let (_, middle) = left.split_at(from);
    proof {
        assert(encode_utf8(middle@) =~= encode_utf8(s@).subrange(from as int, to as int));
        encode_utf8_decode_utf8(middle@);
    }
    Some(middle)
}

/// The place of the first `p` in `s`, or where the search ends without one.
pub open spec fn first_place(s: Seq<char>, p: Seq<char>) -> int
    decreases s.len(),
{
    if s.len() == 0 || begins_with(s, p) {
        0
    } else {
        1 + first_place(s.skip(1), p)
    }
}

/// `s` with `q` in the place of its first `p`, where it has one.
pub open spec fn replaced_once(s: Seq<char>, p: Seq<char>, q: Seq<char>) -> Seq<char> {
    let at = first_place(s, p);
    if occurs_at(s, p, at) {
        s.take(at) + q + s.skip(at + p.len())
    } else {
        s
    }
}

/// `s` with `q` in the place of its first `p`, where it has one.
pub fn replace_first(s: &str, p: &str, q: &str) -> (r: String)
    ensures
        r@ == replaced_once(s@, p@, q@),
{
    let v = chars_of(s);
    let w = chars_of(p);
    let mut at: usize = 0;
    proof {
        assert(v@.skip(0) =~= v@);
    }
    while at < v.len() && !matches_at(&v, at, &w)
        invariant
            at <= v.len(),
            first_place(v@, w@) == at + first_place(v@.skip(at as int), w@),
        decreases v.len() - at,
    {
        proof {
            let rest = v@.skip(at as int);
            if begins_with(rest, w@) {
                assert(v@.subrange(at as int, at + w@.len()) =~= rest.take(w@.len() as int));
            }
            assert(rest.skip(1) =~= v@.skip(at + 1));
        }
        at += 1;
    }
    proof {
        let rest = v@.skip(at as int);
        if occurs_at(v@, w@, at as int) {
            assert(v@.subrange(at as int, at + w@.len()) =~= rest.take(w@.len() as int));
        }
        assert(first_place(v@, w@) == at);
    }
    if !matches_at(&v, at, &w) {
        return s.to_owned();
    }
    let mut out = text_between(&v, 0, at);
    out.append(q);
    let behind: usize = at + w.len();
    let tail = text_between(&v, behind, v.len());
    out.append(tail.as_str());
    proof {
        assert(v@.subrange(0, at as int) =~= v@.take(at as int));
        assert(v@.subrange(behind as int, v@.len() as int) =~= v@.skip(behind as int));
    }
    out
}

/// What is left of `s` without leading white space is the end of `s`.
pub proof fn lemma_trim_start(s: Seq<char>)
    ensures
        trim_start_of(s).len() <= s.len(),
        trim_start_of(s) == s.skip(s.len() - trim_start_of(s).len()),
        trim_start_of(s).len() > 0 ==> !is_white(trim_start_of(s)[0]),
        forall|k: int| 0 <= k < s.len() - trim_start_of(s).len() ==> is_white(#[trigger] s[k]),
    decreases s.len(),
{
    if s.len() > 0 && is_white(s[0]) {
        let t = s.skip(1);
        lemma_trim_start(t);
        assert(s.skip(s.len() - trim_start_of(s).len()) =~= t.skip(
            t.len() - trim_start_of(t).len(),
        ));
        assert forall|k: int| 0 <= k < s.len() - trim_start_of(s).len() implies is_white(
            #[trigger] s[k],
        ) by {
            if k > 0 {
                assert(t[k - 1] == s[k]);
            }
        }
    } else {
        assert(s.skip(0) =~= s);
    }
}

/// What is left of `s` without trailing white space is the start of `s`.
pub proof fn lemma_trim_end(s: Seq<char>)
    ensures
        trim_end_of(s).len() <= s.len(),
        trim_end_of(s) == s.take(trim_end_of(s).len() as int),
        trim_end_of(s).len() > 0 ==> !is_white(trim_end_of(s).last()),
    decreases s.len(),
{
    if s.len() > 0 && is_white(s.last()) {
        let t = s.drop_last();
        lemma_trim_end(t);
        assert(s.take(trim_end_of(s).len() as int) =~= t.take(trim_end_of(t).len() as int));
    } else {
        assert(s.take(s.len() as int) =~= s);
    }
}

/// A text without the white space around it stays as it is.
pub proof fn lemma_trimmed_twice(s: Seq<char>)
    ensures
        trimmed(trimmed(s)) == trimmed(s),
{
    let a = trim_start_of(s);
    lemma_trim_start(s);
    lemma_trim_end(a);
    let t = trimmed(s);
    if t.len() > 0 {
        assert(t[0] == a[0]);
    }
}

/// White space behind a text is not part of what is left of it.
pub proof fn lemma_trimmed_white_end(s: Seq<char>, c: char)
    requires
        is_white(c),
    ensures
        trimmed(s.push(c)) == trimmed(s),
    decreases s.len(),
{
    let longer = s.push(c);
    if s.len() > 0 && is_white(s[0]) {
        assert(longer.skip(1) =~= s.skip(1).push(c));
        lemma_trimmed_white_end(s.skip(1), c);
    } else if s.len() == 0 {
        assert(longer.skip(1) =~= s);
        assert(trim_start_of(longer) == trim_start_of(longer.skip(1)));
    } else {
        assert(longer.drop_last() =~= s);
    }
}

/// What begins with a text without `c`, and goes on behind one, has that text as its
/// first piece.
pub proof fn lemma_split_first(a: Seq<char>, b: Seq<char>, c: char)
    requires
        !a.contains(c),
    ensures
        split_of(a + seq![c] + b, c) == seq![a] + split_of(b, c),
{
    let all = a + seq![c] + b;
    let n = a.len() as int;
    assert(all[n] == c);
    assert forall|k: int| 0 <= k < n implies all[k] != c by {
        assert(all[k] == a[k]);
        assert(a.contains(a[k]));
    }
    lemma_first_index_is(all, c, n);
    assert(all.take(n) =~= a);
    assert(all.skip(n + 1) =~= b);
}

/// A text without `c` is its only piece.
pub proof fn lemma_split_only(s: Seq<char>, c: char)
    requires
        !s.contains(c),
    ensures
        split_of(s, c) == seq![s],
{
    lemma_first_index(s, c);
    let n = first_index(s, c);
    if n < s.len() {
        assert(s[n] == c);
    }
}

/// The first of several strings stands before the others, with the separator between
/// them.
pub proof fn lemma_joined_first(parts: Seq<Seq<char>>, sep: Seq<char>)
    requires
        parts.len() >= 2,
    ensures
        joined(parts, sep) == parts[0] + sep + joined(parts.skip(1), sep),
    decreases parts.len(),
{
    let front = parts.drop_last();
    assert(parts.skip(1).last() == parts.last());
    if parts.len() == 2 {
        assert(front =~= seq![parts[0]]);
        assert(parts.skip(1) =~= seq![parts[1]]);
        assert(joined(front, sep) == front[0]);
        assert(joined(parts, sep) =~= parts[0] + sep + parts[1]);
    } else {
        lemma_joined_first(front, sep);
        assert(front.skip(1) =~= parts.skip(1).drop_last());
        assert(joined(parts, sep) =~= parts[0] + sep + joined(parts.skip(1), sep));
    }
}

/// To split a text at `c` gives back the strings that were joined by `c`, where they
/// hold none themselves.
pub proof fn law_splitting_undoes_joining(parts: Seq<Seq<char>>, c: char)
    requires
        parts.len() > 0,
        forall|k: int| 0 <= k < parts.len() ==> !(#[trigger] parts[k]).contains(c),
    ensures
        split_of(joined(parts, seq![c]), c) == parts,
    decreases parts.len(),
{
    if parts.len() == 1 {
        lemma_split_only(parts[0], c);
        assert(parts =~= seq![parts[0]]);
    } else {
        let rest = parts.skip(1);
        assert forall|k: int| 0 <= k < rest.len() implies !(#[trigger] rest[k]).contains(c) by {
            assert(rest[k] == parts[k + 1]);
        }
        law_splitting_undoes_joining(rest, c);
        lemma_joined_first(parts, seq![c]);
        lemma_split_first(parts[0], joined(rest, seq![c]), c);
        assert(parts =~= seq![parts[0]] + rest);
    }
}

/// To join the pieces that a text splits into at `c` gives back the text, and no piece
/// holds a `c`.
pub proof fn law_joining_undoes_splitting(s: Seq<char>, c: char)
    ensures
        split_of(s, c).len() > 0,
        joined(split_of(s, c), seq![c]) == s,
        forall|k: int| 0 <= k < split_of(s, c).len() ==> !(#[trigger] split_of(s, c)[k]).contains(c),
    decreases s.len(),
{
    lemma_first_index(s, c);
    let n = first_index(s, c);
    let all = split_of(s, c);
    if n < s.len() {
        let head = s.take(n);
        let tail = s.skip(n + 1);
        law_joining_undoes_splitting(tail, c);
        let rest = split_of(tail, c);
        lemma_joined_first(all, seq![c]);
        assert(all.skip(1) =~= rest);
        assert(head + seq![c] + tail =~= s);
        assert forall|k: int| 0 <= k < all.len() implies !(#[trigger] all[k]).contains(c) by {
            if k == 0 {
                assert(!head.contains(c));
            } else {
                assert(all[k] == rest[k - 1]);
            }
        }
    } else {
        assert(all[0] == s);
        if s.contains(c) {
            let k = choose|k: int| 0 <= k < s.len() && s[k] == c;
            assert(s[k] != c);
        }
    }
}

/// A text without white space at its ends is what is left of it.
pub proof fn lemma_trimmed_is(s: Seq<char>)
    requires
        s.len() > 0 ==> !is_white(s[0]) && !is_white(s.last()),
    ensures
        trimmed(s) == s,
{
}

/// A text without white space is one word.
pub proof fn lemma_one_word(s: Seq<char>)
    requires
        forall|k: int| 0 <= k < s.len() ==> !is_white(#[trigger] s[k]),
    ensures
        word_length(s) == s.len(),
        s.len() > 0 ==> words_of(s) == seq![s],
    decreases s.len(),
{
    if s.len() > 0 {
        let t = s.skip(1);
        assert forall|k: int| 0 <= k < t.len() implies !is_white(#[trigger] t[k]) by {
            assert(t[k] == s[k + 1]);
        }
        lemma_one_word(t);
        assert(!is_white(s[0]));
        let n = s.len() as int;
        assert(s.take(n) =~= s);
        assert(s.skip(n) =~= seq![]);
        assert(words_of(seq![]) =~= seq![]);
        assert(words_of(s) =~= seq![s]);
    }
}

/// A word before a space is the first of the words.
pub proof fn lemma_first_word(a: Seq<char>, b: Seq<char>)
    requires
        a.len() > 0,
        forall|k: int| 0 <= k < a.len() ==> !is_white(#[trigger] a[k]),
    ensures
        words_of(a + seq![' '] + b) == seq![a] + words_of(b),
{
    let all = a + seq![' '] + b;
    assert(all[0] == a[0]);
    assert(trim_start_of(all) == all);
    lemma_word_before_space(a, b);
    let n = a.len() as int;
    assert(all.take(n) =~= a);
    let rest = all.skip(n);
    assert(rest =~= seq![' '] + b);
    assert(rest[0] == ' ');
    assert(rest.skip(1) =~= b);
    assert(trim_start_of(rest) == trim_start_of(b));
    assert(words_of(rest) == words_of(b)) by {
        lemma_words_of_trimmed(rest);
        lemma_words_of_trimmed(b);
    }
}

/// White space at the start does not count for the words.
proof fn lemma_words_of_trimmed(s: Seq<char>)
    ensures
        words_of(s) == words_of(trim_start_of(s)),
{
    lemma_trim_start(s);
    let t = trim_start_of(s);
    assert(trim_start_of(t) == t);
}

/// A word ends where a space follows it.
proof fn lemma_word_before_space(a: Seq<char>, b: Seq<char>)
    requires
        forall|k: int| 0 <= k < a.len() ==> !is_white(#[trigger] a[k]),
    ensures
        word_length(a + seq![' '] + b) == a.len(),
    decreases a.len(),
{
    let all = a + seq![' '] + b;
    if a.len() == 0 {
        assert(all[0] == ' ');
    } else {
        let t = a.skip(1);
        assert forall|k: int| 0 <= k < t.len() implies !is_white(#[trigger] t[k]) by {
            assert(t[k] == a[k + 1]);
        }
        lemma_word_before_space(t, b);
        assert(all.skip(1) =~= t + seq![' '] + b);
        assert(all[0] == a[0]);
    }
}

/// White space before a text that does not begin with any is taken away, and no more.
proof fn lemma_white_before(a: Seq<char>, s: Seq<char>)
    requires
        forall|k: int| 0 <= k < a.len() ==> is_white(#[trigger] a[k]),
        s.len() > 0 ==> !is_white(s[0]),
    ensures
        trim_start_of(a + s) == s,
    decreases a.len(),
{
    let all = a + s;
    if a.len() == 0 {
        assert(all =~= s);
    } else {
        assert(is_white(a[0]));
        assert(all[0] == a[0]);
        assert(all.skip(1) =~= a.skip(1) + s);
        assert forall|k: int| 0 <= k < a.skip(1).len() implies is_white(
            #[trigger] a.skip(1)[k],
        ) by {
            assert(a.skip(1)[k] == a[k + 1]);
        }
        lemma_white_before(a.skip(1), s);
    }
}

/// White space behind a text that does not end with any is taken away, and no more.
proof fn lemma_white_behind(s: Seq<char>, b: Seq<char>)
    requires
        forall|k: int| 0 <= k < b.len() ==> is_white(#[trigger] b[k]),
        s.len() > 0 ==> !is_white(s.last()),
    ensures
        trim_end_of(s + b) == s,
    decreases b.len(),
{
    let all = s + b;
    if b.len() == 0 {
        assert(all =~= s);
    } else {
        assert(is_white(b[b.len() - 1]));
        assert(all.last() == b.last());
        assert(all.drop_last() =~= s + b.drop_last());
        assert forall|k: int| 0 <= k < b.drop_last().len() implies is_white(
            #[trigger] b.drop_last()[k],
        ) by {
            assert(b.drop_last()[k] == b[k]);
        }
        lemma_white_behind(s, b.drop_last());
    }
}

/// Trimming takes the white space at both ends of a text, all of it and nothing else.
pub proof fn law_trimming_takes_white_space(a: Seq<char>, s: Seq<char>, b: Seq<char>)
    requires
        forall|k: int| 0 <= k < a.len() ==> is_white(#[trigger] a[k]),
        forall|k: int| 0 <= k < b.len() ==> is_white(#[trigger] b[k]),
        s.len() > 0 ==> !is_white(s[0]) && !is_white(s.last()),
    ensures
        trimmed(a + s + b) == s,
{
    if s.len() == 0 {
        let all = a + s + b;
        assert forall|k: int| 0 <= k < all.len() implies is_white(#[trigger] all[k]) by {
            if k < a.len() {
                assert(all[k] == a[k]);
            } else {
                assert(all[k] == b[k - a.len()]);
            }
        }
        lemma_white_before(all, seq![]);
        assert(all + Seq::<char>::empty() =~= all);
        assert(trimmed(all) =~= s);
    } else {
        assert(a + s + b =~= a + (s + b));
        lemma_white_before(a, s + b);
        lemma_white_behind(s, b);
    }
}

/// The pieces of two texts with a separator between them are those of the first and then
/// those of the second.
pub proof fn law_pieces_of_two_texts(a: Seq<char>, b: Seq<char>, c: char)
    ensures
        split_of(a + seq![c] + b, c) == split_of(a, c) + split_of(b, c),
    decreases a.len(),
{
    let n = first_index(a, c);
    lemma_first_index(a, c);
    if n < a.len() {
        let head = a.take(n);
        let tail = a.skip(n + 1);
        law_pieces_of_two_texts(tail, b, c);
        assert(!head.contains(c)) by {
            if head.contains(c) {
                let k = choose|k: int| 0 <= k < head.len() && head[k] == c;
                assert(a[k] == c);
            }
        }
        lemma_split_first(head, tail + seq![c] + b, c);
        assert(head + seq![c] + (tail + seq![c] + b) =~= a + seq![c] + b);
        assert(seq![head] + (split_of(tail, c) + split_of(b, c)) =~= seq![head] + split_of(tail, c)
            + split_of(b, c));
    } else {
        assert(!a.contains(c)) by {
            if a.contains(c) {
                let k = choose|k: int| 0 <= k < a.len() && a[k] == c;
                assert(a[k] != c);
            }
        }
        lemma_split_first(a, b, c);
    }
}

/// To trim a character takes the copies of it at that end, all of them and nothing else.
pub proof fn law_trimming_takes_copies(copies: Seq<char>, s: Seq<char>, c: char)
    requires
        forall|k: int| 0 <= k < copies.len() ==> #[trigger] copies[k] == c,
    ensures
        s.len() == 0 || s[0] != c ==> trim_start_char(copies + s, c) == s,
        s.len() == 0 || s.last() != c ==> trim_end_char(s + copies, c) == s,
    decreases copies.len(),
{
    if copies.len() == 0 {
        assert(copies + s =~= s);
        assert(s + copies =~= s);
    } else {
        let rest = copies.skip(1);
        assert(copies[0] == c && copies[copies.len() - 1] == c);
        assert forall|k: int| 0 <= k < rest.len() implies #[trigger] rest[k] == c by {
            assert(rest[k] == copies[k + 1]);
        }
        law_trimming_takes_copies(rest, s, c);
        assert((copies + s).skip(1) =~= rest + s);
        assert(rest =~= copies.drop_last()) by {
            assert forall|k: int| 0 <= k < rest.len() implies rest[k] == copies.drop_last()[k] by {
                assert(copies[k] == c && copies[k + 1] == c);
            }
        }
        assert((s + copies).drop_last() =~= s + rest);
        assert((copies + s)[0] == c);
        assert((s + copies).last() == c);
    }
}

/// A line is what stands before a line feed, without a carriage return at its end; what
/// follows the last line feed is a line unless it is empty.
pub proof fn law_lines_end_at_line_feeds(a: Seq<char>, b: Seq<char>)
    requires
        !a.contains('\n'),
    ensures
        a.len() > 0 && a.last() == '\r' ==> lines_of(a + seq!['\n'] + b) == seq![a.drop_last()]
            + lines_of(b),
        a.len() == 0 || a.last() != '\r' ==> lines_of(a + seq!['\n'] + b) == seq![a]
            + lines_of(b),
        a.len() > 0 ==> lines_of(a) == seq![a],
        lines_of(Seq::empty()) == Seq::<Seq<char>>::empty(),
{
    let all = a + seq!['\n'] + b;
    assert forall|k: int| 0 <= k < a.len() implies all[k] != '\n' && a[k] != '\n' by {
        assert(a.contains(a[k]));
    }
    assert(all[a.len() as int] == '\n');
    lemma_first_index_is(all, '\n', a.len() as int);
    lemma_first_index_is(a, '\n', a.len() as int);
    assert(all.take(a.len() as int) =~= a);
    assert(all.skip(a.len() as int + 1) =~= b);
}

/// What stands before the first occurrence is kept, the occurrence is replaced, and what
/// follows is replaced in turn; a text without occurrences stays as it is.
pub proof fn law_replacing_goes_from_the_left(
    a: Seq<char>,
    p: Seq<char>,
    q: Seq<char>,
    b: Seq<char>,
)
    requires
        p.len() > 0,
    ensures
        (forall|i: int| 0 <= i < a.len() ==> !begins_with((#[trigger] (a + p + b).skip(i)), p))
            ==> replaced(a + p + b, p, q) == a + q + replaced(b, p, q),
        (forall|i: int| 0 <= i < a.len() ==> !begins_with((#[trigger] a.skip(i)), p)) ==> replaced(
            a,
            p,
            q,
        ) == a,
    decreases a.len(),
{
    let all = a + p + b;
    if a.len() == 0 {
        assert(all =~= p + b);
        assert(all.take(p.len() as int) =~= p);
        assert(all.skip(p.len() as int) =~= b);
        assert(a + q + replaced(b, p, q) =~= q + replaced(b, p, q));
    } else {
        let t = a.skip(1);
        law_replacing_goes_from_the_left(t, p, q, b);
        assert(all.skip(1) =~= t + p + b);
        if forall|i: int| 0 <= i < a.len() ==> !begins_with((#[trigger] all.skip(i)), p) {
            assert(all.skip(0) =~= all);
            assert(!begins_with(all.skip(0), p));
            assert forall|i: int| 0 <= i < t.len() implies !begins_with(
                (#[trigger] (t + p + b).skip(i)),
                p,
            ) by {
                assert((t + p + b).skip(i) =~= all.skip(i + 1));
            }
            assert(replaced(all, p, q) =~= a + q + replaced(b, p, q));
        }
        if forall|i: int| 0 <= i < a.len() ==> !begins_with((#[trigger] a.skip(i)), p) {
            assert(a.skip(0) =~= a);
            assert(!begins_with(a.skip(0), p));
            assert forall|i: int| 0 <= i < t.len() implies !begins_with((#[trigger] t.skip(i)), p) by {
                assert(t.skip(i) =~= a.skip(i + 1));
            }
            assert(replaced(a, p, q) =~= a);
        }
    }
}

/// The first occurrence is replaced, and nothing else; a text without an occurrence stays
/// as it is.
pub proof fn law_first_occurrence_is_replaced(
    a: Seq<char>,
    p: Seq<char>,
    q: Seq<char>,
    b: Seq<char>,
)
    requires
        p.len() > 0,
    ensures
        (forall|i: int| 0 <= i < a.len() ==> !#[trigger] occurs_at(a + p + b, p, i))
            ==> replaced_once(a + p + b, p, q) == a + q + b,
        !has_text(a, p) ==> replaced_once(a, p, q) == a,
        has_text(a + p + b, p),
{
    let all = a + p + b;
    let n = a.len() as int;
    assert(all.subrange(n, n + p.len()) =~= p);
    assert(occurs_at(all, p, n));
    if forall|i: int| 0 <= i < a.len() ==> !#[trigger] occurs_at(all, p, i) {
        lemma_first_place_is(all, p, n);
        assert(all.take(n) =~= a);
        assert(all.skip(n + p.len()) =~= b);
    }
    if !has_text(a, p) {
        let at = first_place(a, p);
        assert(!occurs_at(a, p, at));
    }
}

/// The first place of an occurrence.
proof fn lemma_first_place_is(s: Seq<char>, p: Seq<char>, n: int)
    requires
        occurs_at(s, p, n),
        p.len() > 0,
        forall|i: int| 0 <= i < n ==> !#[trigger] occurs_at(s, p, i),
    ensures
        first_place(s, p) == n,
    decreases n,
{
    if n == 0 {
        assert(s.take(p.len() as int) =~= s.subrange(0, p.len() as int));
    } else {
        let t = s.skip(1);
        assert(!begins_with(s, p)) by {
            if begins_with(s, p) {
                assert(s.subrange(0, p.len() as int) =~= s.take(p.len() as int));
                assert(occurs_at(s, p, 0));
            }
        }
        assert(t.subrange(n - 1, n - 1 + p.len()) =~= s.subrange(n, n + p.len()));
        assert forall|i: int| 0 <= i < n - 1 implies !#[trigger] occurs_at(t, p, i) by {
            if occurs_at(t, p, i) {
                assert(s.subrange(i + 1, i + 1 + p.len()) =~= t.subrange(i, i + p.len()));
                assert(occurs_at(s, p, i + 1));
            }
        }
        lemma_first_place_is(t, p, n - 1);
    }
}

} // verus!
