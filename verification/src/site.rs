//! How the pages of a site are named: their URLs, files, schemas and templates.

use vstd::prelude::*;

use crate::path;
use crate::path::{join_path, path_components, split_file_name};
use crate::text;
use crate::text::{chars_of, ends_with, same, split, trim_start_matches};

verus! {

/// The two strings, one behind the other.
pub fn together(a: &str, b: &str) -> (r: String)
    ensures
        r@ == a@ + b@,
{
    let mut out = a.to_owned();
    out.append(b);
    out
}

/// The three strings, one behind the other.
pub fn all_together(a: &str, b: &str, c: &str) -> (r: String)
    ensures
        r@ == a@ + b@ + c@,
{
    let mut out = together(a, b);
    out.append(c);
    out
}

/// The characters of a string as they stand between the quotes of a Clojure
/// string: the backslash and the quote are escaped, carriage returns and null
/// characters are left out.
pub open spec fn clj_escaped(s: Seq<char>) -> Seq<char>
    decreases s.len(),
{
    if s.len() == 0 {
        seq![]
    } else {
        let c = s.last();
        let before = clj_escaped(s.drop_last());
        if c == '\0' || c == '\r' {
            before
        } else if c == '\\' || c == '"' {
            before.push('\\').push(c)
        } else {
            before.push(c)
        }
    }
}

/// A string as a Clojure string literal.
pub open spec fn clj_literal(s: Seq<char>) -> Seq<char> {
    seq!['"'] + clj_escaped(s) + seq!['"']
}

/// The characters of a string as they stand between the quotes of a Clojure
/// string.
pub fn clj_str_escape(s: &str) -> (r: String)
    ensures
        r@ == clj_escaped(s@),
{
    let v = chars_of(s);
    let mut out = String::new();
    let mut i: usize = 0;
    proof {
        assert(v@.take(0) =~= seq![]);
    }
    while i < v.len()
        invariant
            i <= v.len(),
            out@ == clj_escaped(v@.take(i as int)),
        decreases v.len() - i,
    {
        proof {
            assert(v@.take(i + 1).drop_last() =~= v@.take(i as int));
            assert(v@.take(i + 1).last() == v@[i as int]);
        }
        let c = v[i];
        if c == '\0' || c == '\r' {
        } else if c == '\\' || c == '"' {
            out.push('\\');
            out.push(c);
        } else {
            out.push(c);
        }
        i += 1;
    }
    proof {
        assert(v@.take(i as int) =~= v@);
    }
    out
}

/// A string as a Clojure string literal, with its quotes.
pub fn clj_str(s: &str) -> (r: String)
    ensures
        r@ == clj_literal(s@),
{
    let mut out = String::new();
    out.push('"');
    let inner = clj_str_escape(s);
    out.append(inner.as_str());
    out.push('"');
    proof {
        assert(out@ =~= clj_literal(s@));
    }
    out
}

/// What a Clojure reader takes from the characters between the quotes: an
/// escaped character stands for itself.
pub open spec fn clj_read(s: Seq<char>) -> Seq<char>
    decreases s.len(),
{
    if s.len() == 0 {
        seq![]
    } else if s[0] == '\\' && s.len() > 1 {
        seq![s[1]] + clj_read(s.skip(2))
    } else {
        seq![s[0]] + clj_read(s.skip(1))
    }
}

/// The characters that a Clojure literal keeps.
pub open spec fn clj_kept(s: Seq<char>) -> Seq<char>
    decreases s.len(),
{
    if s.len() == 0 {
        seq![]
    } else if s.last() == '\0' || s.last() == '\r' {
        clj_kept(s.drop_last())
    } else {
        clj_kept(s.drop_last()).push(s.last())
    }
}

/// Whether the characters between the quotes end no string early: each quote
/// stands behind a backslash, and each backslash has the character that it
/// escapes behind it.
pub open spec fn is_closed_literal(s: Seq<char>) -> bool
    decreases s.len(),
{
    if s.len() == 0 {
        true
    } else if s[0] == '\\' {
        s.len() > 1 && is_closed_literal(s.skip(2))
    } else {
        s[0] != '"' && is_closed_literal(s.skip(1))
    }
}

/// What is read of two literals, one behind the other.
proof fn lemma_read_behind(a: Seq<char>, b: Seq<char>)
    requires
        is_closed_literal(a),
    ensures
        clj_read(a + b) == clj_read(a) + clj_read(b),
        is_closed_literal(b) ==> is_closed_literal(a + b),
    decreases a.len(),
{
    if a.len() == 0 {
        assert(a + b =~= b);
        assert(clj_read(a) + clj_read(b) =~= clj_read(b));
    } else if a[0] == '\\' {
        lemma_read_behind(a.skip(2), b);
        assert((a + b).skip(2) =~= a.skip(2) + b);
        assert(clj_read(a + b) =~= clj_read(a) + clj_read(b));
    } else {
        lemma_read_behind(a.skip(1), b);
        assert((a + b).skip(1) =~= a.skip(1) + b);
        assert(clj_read(a + b) =~= clj_read(a) + clj_read(b));
    }
}

/// A Clojure literal reads back as the string that it was made from, without the
/// characters that it leaves out, and no character of the string ends the
/// literal early.
pub proof fn law_literal_reads_back(s: Seq<char>)
    ensures
        is_closed_literal(clj_escaped(s)),
        clj_read(clj_escaped(s)) == clj_kept(s),
    decreases s.len(),
{
    if s.len() > 0 {
        law_literal_reads_back(s.drop_last());
        let before = clj_escaped(s.drop_last());
        let c = s.last();
        if c == '\0' || c == '\r' {
        } else if c == '\\' || c == '"' {
            let piece = seq!['\\', c];
            assert(piece.skip(2) =~= Seq::<char>::empty());
            assert(is_closed_literal(piece.skip(2)));
            assert(clj_read(piece.skip(2)) =~= Seq::<char>::empty());
            assert(is_closed_literal(piece));
            assert(clj_read(piece) =~= seq![c]);
            lemma_read_behind(before, piece);
            assert(before.push('\\').push(c) =~= before + piece);
            assert(clj_read(before) + seq![c] =~= clj_kept(s));
        } else {
            let piece = seq![c];
            assert(piece.skip(1) =~= Seq::<char>::empty());
            assert(is_closed_literal(piece.skip(1)));
            assert(clj_read(piece.skip(1)) =~= Seq::<char>::empty());
            assert(is_closed_literal(piece));
            assert(clj_read(piece) =~= seq![c]);
            lemma_read_behind(before, piece);
            assert(before.push(c) =~= before + piece);
            assert(clj_read(before) + seq![c] =~= clj_kept(s));
        }
    }
}

/// The offset just behind the given number of line feeds, if there are as many.
pub open spec fn line_start(bytes: Seq<u8>, line: nat) -> Option<int>
    decreases bytes.len(),
{
    if line == 0 {
        Some(0)
    } else if bytes.len() == 0 {
        None
    } else {
        let rest = line_start(
            bytes.skip(1),
            if bytes[0] == 10 {
                (line - 1) as nat
            } else {
                line
            },
        );
        match rest {
            Some(at) => Some(at + 1),
            None => None,
        }
    }
}

/// The offset of the first byte of a line, counted from 0, or of the last byte
/// where there are fewer lines.
pub open spec fn line_offset(bytes: Seq<u8>, line: nat) -> int {
    match line_start(bytes, line) {
        Some(at) => at,
        None => if bytes.len() == 0 {
            0
        } else {
            bytes.len() - 1
        },
    }
}

/// Convert a 0-based line number to a byte offset in `src`.
///
/// The offset points to the first byte of that line. If there are fewer lines in
/// `src`, it is that of the last byte.
pub fn line_to_byte_offset(src: &str, line: u32) -> (r: usize)
    ensures
        r == line_offset(vstd::utf8::encode_utf8(src@), line as nat),
{
    let bytes = src.as_bytes();
    let mut i: usize = 0;
    let mut left: u32 = line;
    proof {
        assert(bytes@.skip(0) =~= bytes@);
    }
    while i < bytes.len() && left > 0
        invariant
            i <= bytes@.len(),
            line_start(bytes@, line as nat) == match line_start(bytes@.skip(i as int), left as nat) {
                Some(at) => Some(at + i),
                None => None,
            },
        decreases bytes.len() - i,
    {
        proof {
            assert(bytes@.skip(i as int)[0] == bytes@[i as int]);
            assert(bytes@.skip(i as int).skip(1) =~= bytes@.skip(i + 1));
        }
        if bytes[i] == 10 {
            left -= 1;
        }
        i += 1;
    }
    if left == 0 {
        i
    } else if bytes.len() == 0 {
        0
    } else {
        bytes.len() - 1
    }
}

/// The key of the schema of a page: the stem, or that of the collection schema
/// for an index page.
pub open spec fn schema_key(stem: Seq<char>, slug: Seq<char>) -> Seq<char> {
    if slug == "index"@ {
        if stem.len() == 0 {
            "index"@
        } else {
            stem + "/index"@
        }
    } else {
        stem
    }
}

/// The key of the schema of a page: the stem, or that of the collection schema
/// for an index page.
pub fn schema_cache_key(stem: &str, slug: &str) -> (r: String)
    ensures
        r@ == schema_key(stem@, slug@),
{
    if same(slug, "index") {
        if stem.is_empty() {
            "index".to_owned()
        } else {
            together(stem, "/index")
        }
    } else {
        stem.to_owned()
    }
}

/// The URL of a page: an index page has that of its collection.
pub open spec fn page_url(stem: Seq<char>, slug: Seq<char>) -> Seq<char> {
    let collection = if stem.len() == 0 {
        "/"@
    } else {
        "/"@ + stem + "/"@
    };
    if slug == "index"@ {
        collection
    } else {
        collection + slug
    }
}

/// The URL of a page: an index page has that of its collection.
pub fn url_for_stem_slug(stem: &str, slug: &str) -> (r: String)
    ensures
        r@ == page_url(stem@, slug@),
{
    let collection = if stem.is_empty() {
        "/".to_owned()
    } else {
        all_together("/", stem, "/")
    };
    if same(slug, "index") {
        collection
    } else {
        together(collection.as_str(), slug)
    }
}

/// The file of a page, relative to the site.
pub open spec fn page_file(stem: Seq<char>, slug: Seq<char>) -> Seq<char> {
    let dir = if stem.len() == 0 {
        "content/"@
    } else {
        "content/"@ + stem + "/"@
    };
    dir + slug + ".md"@
}

/// The file of a page, relative to the site.
pub fn content_file_path(stem: &str, slug: &str) -> (r: String)
    ensures
        r@ == page_file(stem@, slug@),
{
    let dir = if stem.is_empty() {
        "content/".to_owned()
    } else {
        all_together("content/", stem, "/")
    };
    all_together(dir.as_str(), slug, ".md")
}

/// The stem that a URL belongs to: its first segment.
pub open spec fn url_stem(url: Seq<char>) -> Seq<char> {
    text::split_of(text::trim_start_char(url, '/'), '/')[0]
}

/// The stem that a URL belongs to: its first segment.
pub fn stem_from_url_path(url: &str) -> (r: String)
    ensures
        r@ == url_stem(url@),
{
    let trimmed = trim_start_matches(url, '/');
    let parts = split(trimmed.as_str(), '/');
    proof {
        assert(text::split_of(trimmed@, '/').len() > 0);
        assert(text::texts(parts@)[0] == parts@[0]@);
    }
    parts[0].clone()
}

/// The last segment of a string.
pub open spec fn last_segment(s: Seq<char>) -> Seq<char> {
    text::split_of(s, '/').last()
}

/// The last segment of a string.
pub fn segment_behind(s: &str) -> (r: String)
    ensures
        r@ == last_segment(s@),
{
    let parts = split(s, '/');
    proof {
        assert(text::split_of(s@, '/').len() > 0);
        assert(text::texts(parts@).last() == parts@.last()@);
    }
    parts[parts.len() - 1].clone()
}

/// The slug of the page at a URL.
pub open spec fn url_slug(url: Seq<char>) -> Seq<char> {
    if text::finishes_with(url, "/"@) {
        "index"@
    } else {
        last_segment(url)
    }
}

/// The slug of the page at a URL.
pub fn slug_from_url(url: &str) -> (r: String)
    ensures
        r@ == url_slug(url@),
{
    if ends_with(url, "/") {
        "index".to_owned()
    } else {
        segment_behind(url)
    }
}

/// The name of the file at a path without its extension, if the path ends in a
/// name.
pub open spec fn stem_of_path(p: Seq<char>) -> Option<Seq<char>> {
    stem_of_parts(path::components_of(p))
}

/// The name of the file at a path with the given components, without its
/// extension, if the path ends in a name.
pub open spec fn stem_of_parts(parts: Seq<Seq<char>>) -> Option<Seq<char>> {
    if parts.len() == 0 || parts.last() == "/"@ || parts.last() == "."@ || parts.last() == ".."@ {
        None
    } else {
        Some(path::name_stem(parts.last()))
    }
}

/// The name of the file at a path without its extension, if the path ends in a
/// name.
pub fn file_stem(p: &str) -> (r: Option<String>)
    ensures
        text::opt_text(r) == stem_of_path(p@),
{
    let parts = path_components(p);
    proof {
        assert(text::texts(parts@).len() == parts@.len());
    }
    if parts.len() == 0 {
        return None;
    }
    let name = &parts[parts.len() - 1];
    proof {
        assert(text::texts(parts@).last() == name@);
    }
    if same(name, "/") || same(name, ".") || same(name, "..") {
        return None;
    }
    Some(split_file_name(name).0)
}

/// Where the template of a page is looked for.
#[derive(Debug, Clone, Copy, PartialEq, Eq, Structural)]
pub enum TemplateSource {
    /// The template of the collection.
    Collection,
    /// The template of the items.
    Item,
    /// The partial template that has the name of the stem.
    Partial,
}

/// Where the template of a page is looked for, in order.
pub open spec fn template_order(is_collection: bool) -> Seq<TemplateSource> {
    if is_collection {
        seq![TemplateSource::Collection, TemplateSource::Item, TemplateSource::Partial]
    } else {
        seq![TemplateSource::Item, TemplateSource::Partial]
    }
}

/// Where the template of a page is looked for, in order.
pub fn template_sources(is_collection: bool) -> (r: Vec<TemplateSource>)
    ensures
        r@ == template_order(is_collection),
{
    let mut out: Vec<TemplateSource> = Vec::new();
    if is_collection {
        out.push(TemplateSource::Collection);
    }
    out.push(TemplateSource::Item);
    out.push(TemplateSource::Partial);
    proof {
        assert(out@ =~= template_order(is_collection));
    }
    out
}

/// Where the template of a stem may lie in a site.
pub open spec fn template_files(site_dir: Seq<char>, stem: Seq<char>) -> Seq<Seq<char>> {
    let dir = path::path_join(site_dir, "templates"@);
    seq![
        path::path_join(path::path_join(dir, stem), "item.hiccup"@),
        path::path_join(path::path_join(dir, stem), "item.html"@),
        path::path_join(dir, stem + ".hiccup"@),
        path::path_join(dir, stem + ".html"@),
    ]
}

/// Where the template of a stem may lie in a site.
pub fn template_paths(site_dir: &str, stem: &str) -> (r: Vec<String>)
    ensures
        text::texts(r@) == template_files(site_dir@, stem@),
{
    let dir = join_path(site_dir, "templates");
    let own = join_path(dir.as_str(), stem);
    let mut out: Vec<String> = Vec::new();
    out.push(join_path(own.as_str(), "item.hiccup"));
    out.push(join_path(own.as_str(), "item.html"));
    let hiccup = together(stem, ".hiccup");
    out.push(join_path(dir.as_str(), hiccup.as_str()));
    let html = together(stem, ".html");
    out.push(join_path(dir.as_str(), html.as_str()));
    proof {
        assert(text::texts(out@) =~= template_files(site_dir@, stem@));
    }
    out
}

/// The view of a list of pairs of strings.
pub open spec fn pair_texts(pairs: Seq<(String, String)>) -> Seq<(Seq<char>, Seq<char>)> {
    pairs.map_values(|p: (String, String)| (p.0@, p.1@))
}

/// The stems whose schemas hold a schema, each with the address of its schema
/// view.
pub fn included_pairs(stems: &Vec<String>) -> (r: Vec<(String, String)>)
    ensures
        pair_texts(r@) == text::texts(stems@).map_values(
            |s: Seq<char>| (s, "/"@ + s + "/#_schema"@),
        ),
{
    let mut out: Vec<(String, String)> = Vec::new();
    let mut i: usize = 0;
    while i < stems.len()
        invariant
            i <= stems.len(),
            out@.len() == i,
            forall|k: int|
                0 <= k < i ==> (#[trigger] out@[k]).0@ == stems@[k]@ && out@[k].1@ == "/"@
                    + stems@[k]@ + "/#_schema"@,
        decreases stems.len() - i,
    {
        let address = all_together("/", stems[i].as_str(), "/#_schema");
        out.push((stems[i].clone(), address));
        i += 1;
    }
    proof {
        assert(pair_texts(out@) =~= text::texts(stems@).map_values(
            |s: Seq<char>| (s, "/"@ + s + "/#_schema"@),
        ));
    }
    out
}

/// A literal stands in quotes.
pub proof fn law_literal_stands_in_quotes(s: Seq<char>)
    ensures
        clj_literal(s).len() == clj_escaped(s).len() + 2,
        clj_literal(s)[0] == '"',
        clj_literal(s).last() == '"',
        clj_literal(s).subrange(1, clj_literal(s).len() - 1) == clj_escaped(s),
{
    assert(clj_literal(s).subrange(1, clj_literal(s).len() - 1) =~= clj_escaped(s));
}

/// The number of line feeds in a text.
pub open spec fn line_feeds(bytes: Seq<u8>) -> nat {
    bytes.filter(|b: u8| b == 10).len()
}

/// Line feeds are counted from the front.
proof fn lemma_line_feeds_first(first: u8, rest: Seq<u8>)
    ensures
        line_feeds(seq![first] + rest) == line_feeds(rest) + (if first == 10 {
            1nat
        } else {
            0nat
        }),
{
    let is_feed = |b: u8| b == 10;
    Seq::filter_distributes_over_add(seq![first], rest, is_feed);
    reveal_with_fuel(Seq::filter, 2);
    assert(seq![first].drop_last() =~= seq![]);
}

/// A line begins just behind as many line feeds as there are lines before it. A line that
/// a text does not have begins at its last byte.
pub proof fn law_line_begins_behind_its_line_feeds(bytes: Seq<u8>, line: nat)
    ensures
        line <= line_feeds(bytes) ==> {
            let at = line_offset(bytes, line);
            &&& 0 <= at <= bytes.len()
            &&& line_feeds(bytes.take(at)) == line
            &&& line > 0 ==> at > 0 && bytes[at - 1] == 10
            &&& line == 0 ==> at == 0
        },
        line > line_feeds(bytes) ==> line_offset(bytes, line) == if bytes.len() == 0 {
            0
        } else {
            bytes.len() - 1
        },
{
    lemma_line_start(bytes, line);
}

/// Where a line begins.
proof fn lemma_line_start(bytes: Seq<u8>, line: nat)
    ensures
        line_start(bytes, line) is Some <==> line <= line_feeds(bytes),
        line_start(bytes, line) matches Some(at) ==> {
            &&& 0 <= at <= bytes.len()
            &&& line_feeds(bytes.take(at)) == line
            &&& line > 0 ==> at > 0 && bytes[at - 1] == 10
            &&& line == 0 ==> at == 0
        },
    decreases bytes.len(),
{
    reveal(Seq::filter);
    if line == 0 {
        assert(bytes.take(0) =~= seq![]);
    } else if bytes.len() > 0 {
        let rest = bytes.skip(1);
        assert(bytes =~= seq![bytes[0]] + rest);
        lemma_line_feeds_first(bytes[0], rest);
        let next: nat = if bytes[0] == 10 {
            (line - 1) as nat
        } else {
            line
        };
        lemma_line_start(rest, next);
        if line_start(rest, next) is Some {
            let at = line_start(rest, next)->0;
            assert(bytes.take(at + 1) =~= seq![bytes[0]] + rest.take(at));
            lemma_line_feeds_first(bytes[0], rest.take(at));
            if at > 0 {
                assert(bytes[at] == rest[at - 1]);
            }
        }
    }
}

/// Whether a text can name a directory or a file: it is not empty and has no slashes.
pub open spec fn is_plain_name(name: Seq<char>) -> bool {
    name.len() > 0 && !name.contains('/')
}

/// The URL of a page gives back its stem and its slug.
pub proof fn law_page_url_reads_back(stem: Seq<char>, slug: Seq<char>)
    requires
        is_plain_name(stem),
        is_plain_name(slug),
    ensures
        url_stem(page_url(stem, slug)) == stem,
        url_slug(page_url(stem, slug)) == slug,
        url_slug(page_url(seq![], slug)) == slug,
        page_url(stem, slug)[0] == '/',
        page_url(seq![], slug)[0] == '/',
{
    reveal_strlit("/");
    reveal_strlit("index");
    assert("/"@ =~= seq!['/']);
    let url = page_url(stem, slug);
    let tail: Seq<char> = if slug == "index"@ {
        seq![]
    } else {
        slug
    };
    assert(url =~= seq!['/'] + (stem + seq!['/'] + tail));
    assert(stem.contains(stem[0]));
    text::law_trimming_takes_copies(seq!['/'], stem + seq!['/'] + tail, '/');
    text::lemma_split_first(stem, tail, '/');
    lemma_slug_reads_back(seq!['/'] + stem, slug);
    assert(url =~= seq!['/'] + stem + seq!['/'] + tail);
    lemma_slug_reads_back(seq![], slug);
    assert(page_url(seq![], slug) =~= Seq::<char>::empty() + seq!['/'] + tail);
}

/// The slug of a URL stands behind its last slash.
proof fn lemma_slug_reads_back(before: Seq<char>, slug: Seq<char>)
    requires
        is_plain_name(slug),
    ensures
        slug == "index"@ ==> url_slug(before + seq!['/']) == slug,
        slug == "index"@ ==> url_slug(before + seq!['/'] + Seq::<char>::empty()) == slug,
        slug != "index"@ ==> url_slug(before + seq!['/'] + slug) == slug,
{
    reveal_strlit("/");
    let short = before + seq!['/'];
    assert(short + Seq::<char>::empty() =~= short);
    assert(short.skip(short.len() - 1) =~= "/"@);
    let long = before + seq!['/'] + slug;
    text::law_pieces_of_two_texts(before, slug, '/');
    text::lemma_split_only(slug, '/');
    assert(text::split_of(long, '/').last() == slug);
    assert(slug.contains(slug.last()));
    assert(!text::finishes_with(long, "/"@)) by {
        if text::finishes_with(long, "/"@) {
            assert(long.skip(long.len() - 1)[0] == '/');
        }
    }
}

/// The file of a page lies in the directory of its stem and is named after its slug.
pub proof fn law_page_file_reads_back(stem: Seq<char>, slug: Seq<char>)
    requires
        is_plain_name(stem),
        is_plain_name(slug),
        stem != "."@,
    ensures
        path::components_of(page_file(stem, slug)) == seq!["content"@, stem, slug + ".md"@],
        path::components_of(page_file(seq![], slug)) == seq!["content"@, slug + ".md"@],
        stem_of_path(page_file(stem, slug)) == Some(slug),
        stem_of_path(page_file(seq![], slug)) == Some(slug),
        path::name_extension(path::components_of(page_file(stem, slug)).last()) == Some("md"@),
{
    reveal_strlit("..");
    reveal_strlit("md");
    let name = slug + ".md"@;
    lemma_file_name(slug);
    lemma_page_file_deep(stem, slug);
    lemma_page_file_top(slug);
    assert("/"@.len() == 1 && "."@.len() == 1 && ".."@.len() == 2) by {
        reveal_strlit("/");
        reveal_strlit(".");
    }
    assert(!"md"@.contains('.'));
    path::law_file_name_is_stem_and_extension(slug, "md"@);
}

/// The name of a file that is named after a slug.
proof fn lemma_file_name(slug: Seq<char>)
    requires
        is_plain_name(slug),
    ensures
        !(slug + ".md"@).contains('/'),
        (slug + ".md"@).len() > 3,
        slug + ".md"@ == slug + seq!['.'] + "md"@,
{
    reveal_strlit(".md");
    reveal_strlit("md");
    let name = slug + ".md"@;
    if name.contains('/') {
        let k = choose|k: int| 0 <= k < name.len() && name[k] == '/';
        if k < slug.len() {
            assert(slug[k] == '/');
        }
    }
    assert(name =~= slug + seq!['.'] + "md"@);
}

/// The components of a file in the directory of a stem.
proof fn lemma_page_file_deep(stem: Seq<char>, slug: Seq<char>)
    requires
        is_plain_name(stem),
        is_plain_name(slug),
        stem != "."@,
    ensures
        path::components_of(page_file(stem, slug)) == seq!["content"@, stem, slug + ".md"@],
{
    reveal_strlit("/");
    reveal_strlit("content/");
    reveal_strlit("content");
    reveal_strlit(".");
    let name = slug + ".md"@;
    let three = seq!["content"@, stem, name];
    lemma_file_name(slug);
    assert("content"@.len() == 7 && "."@.len() == 1);
    assert(!"content"@.contains('/'));
    path::law_components_are_the_segments_that_count(three);
    let keep = |s: Seq<char>| s.len() > 0 && s != "."@;
    lemma_all_kept(three, keep);
    lemma_joined_three("content"@, stem, name);
    assert(page_file(stem, slug) =~= "content"@ + seq!['/'] + stem + seq!['/'] + name);
}

/// Three names with slashes between them.
proof fn lemma_joined_three(a: Seq<char>, b: Seq<char>, c: Seq<char>)
    ensures
        text::joined(seq![a, b, c], seq!['/']) == a + seq!['/'] + b + seq!['/'] + c,
        text::joined(seq![a, c], seq!['/']) == a + seq!['/'] + c,
{
    let sep = seq!['/'];
    let three = seq![a, b, c];
    let two = seq![a, b];
    assert(three.drop_last() =~= two);
    assert(two.drop_last() =~= seq![a]);
    assert(text::joined(seq![a], sep) == a);
    assert(text::joined(two, sep) == a + sep + b);
    assert(seq![a, c].drop_last() =~= seq![a]);
}

/// The components of a file at the top.
proof fn lemma_page_file_top(slug: Seq<char>)
    requires
        is_plain_name(slug),
    ensures
        path::components_of(page_file(seq![], slug)) == seq!["content"@, slug + ".md"@],
{
    reveal_strlit("content/");
    reveal_strlit("content");
    reveal_strlit(".");
    let name = slug + ".md"@;
    let two = seq!["content"@, name];
    lemma_file_name(slug);
    assert("content"@.len() == 7 && "."@.len() == 1);
    assert(!"content"@.contains('/'));
    path::law_components_are_the_segments_that_count(two);
    let keep = |s: Seq<char>| s.len() > 0 && s != "."@;
    lemma_all_kept(two, keep);
    lemma_joined_three("content"@, name, name);
    assert(page_file(seq![], slug) =~= "content"@ + seq!['/'] + name);
}

/// Where all are kept, nothing changes.
proof fn lemma_all_kept(parts: Seq<Seq<char>>, keep: spec_fn(Seq<char>) -> bool)
    requires
        forall|k: int| 0 <= k < parts.len() ==> keep(#[trigger] parts[k]),
    ensures
        parts.filter(keep) == parts,
    decreases parts.len(),
{
    reveal(Seq::filter);
    if parts.len() > 0 {
        let front = parts.drop_last();
        assert forall|k: int| 0 <= k < front.len() implies keep(#[trigger] front[k]) by {
            assert(front[k] == parts[k]);
        }
        lemma_all_kept(front, keep);
        assert(keep(parts[parts.len() - 1]));
        assert(front.push(parts.last()) =~= parts);
    }
}

/// An item goes by the schema of its stem; a collection by one of its own, which lies
/// below that of the stem.
pub proof fn law_schema_keys_are_apart(stem: Seq<char>, slug: Seq<char>)
    ensures
        slug != "index"@ ==> schema_key(stem, slug) == stem,
        stem.len() > 0 ==> schema_key(stem, "index"@) == stem + "/index"@,
        schema_key(stem, "index"@) != stem || stem == "index"@,
        last_segment(schema_key(stem, "index"@)) == "index"@,
{
    reveal_strlit("/index");
    reveal_strlit("index");
    let key = schema_key(stem, "index"@);
    if stem.len() == 0 {
        text::lemma_split_only("index"@, '/');
    } else {
        assert(key =~= stem + seq!['/'] + "index"@);
        text::law_pieces_of_two_texts(stem, "index"@, '/');
        text::lemma_split_only("index"@, '/');
        assert(key.len() > stem.len());
    }
}

/// A collection page looks for a collection template first; every page looks for an item
/// template and then for a partial.
pub proof fn law_templates_are_looked_for_in_order(is_collection: bool)
    ensures
        ({
            let order = template_order(is_collection);
            let n = order.len() as int;
            &&& order.contains(TemplateSource::Collection) <==> is_collection
            &&& is_collection ==> order[0] == TemplateSource::Collection
            &&& n >= 2
            &&& order[n - 1] == TemplateSource::Partial
            &&& order[n - 2] == TemplateSource::Item
            &&& order.no_duplicates()
        }),
{
    let order = template_order(is_collection);
    if is_collection {
        assert(order[0] == TemplateSource::Collection);
    }
}

/// The templates of a stem lie in the directory of templates: item templates in that of
/// the stem, and templates that are named after the stem beside it.
pub proof fn law_places_of_templates(site_dir: Seq<char>, stem: Seq<char>)
    requires
        site_dir.len() > 0,
        is_plain_name(stem),
        stem != "."@,
    ensures
        ({
            let files = template_files(site_dir, stem);
            let dir = path::components_of(site_dir) + seq!["templates"@];
            &&& files.len() == 4
            &&& path::components_of(files[0]) == dir + seq![stem, "item.hiccup"@]
            &&& path::components_of(files[1]) == dir + seq![stem, "item.html"@]
            &&& path::components_of(files[2]) == dir + seq![stem + ".hiccup"@]
            &&& path::components_of(files[3]) == dir + seq![stem + ".html"@]
        }),
{
    reveal_strlit("templates");
    reveal_strlit("item.hiccup");
    reveal_strlit("item.html");
    reveal_strlit(".hiccup");
    reveal_strlit(".html");
    reveal_strlit(".");
    reveal_strlit("/");
    assert("."@.len() == 1);
    let dir = path::path_join(site_dir, "templates"@);
    lemma_joined_name(site_dir, "templates"@);
    let own = path::path_join(dir, stem);
    lemma_joined_name(dir, stem);
    lemma_joined_name(own, "item.hiccup"@);
    lemma_joined_name(own, "item.html"@);
    assert forall|k: int| 0 <= k < stem.len() implies stem[k] != '/' by {
        assert(stem.contains(stem[k]));
    }
    assert(!(stem + ".hiccup"@).contains('/'));
    assert(!(stem + ".html"@).contains('/'));
    lemma_joined_name(dir, stem + ".hiccup"@);
    lemma_joined_name(dir, stem + ".html"@);
    let parts = path::components_of(site_dir) + seq!["templates"@];
    let files = template_files(site_dir, stem);
    assert(path::components_of(files[0]) =~= parts + seq![stem, "item.hiccup"@]);
    assert(path::components_of(files[1]) =~= parts + seq![stem, "item.html"@]);
}

/// A path with a name joined to it has that name as its last component.
pub proof fn lemma_joined_name(base: Seq<char>, name: Seq<char>)
    requires
        base.len() > 0,
        is_plain_name(name),
        name != "."@,
    ensures
        path::path_join(base, name).len() > 0,
        path::components_of(path::path_join(base, name)) == path::components_of(base) + seq![name],
{
    reveal_strlit("/");
    assert(name.contains(name[0]));
    text::lemma_split_only(name, '/');
    path::law_joined_path_has_both(base, name);
    path::law_components_are_the_segments_that_count(seq![name]);
    let keep = |s: Seq<char>| s.len() > 0 && s != "."@;
    lemma_all_kept(seq![name], keep);
    assert(text::joined(seq![name], seq!['/']) == name);
}

} // verus!
