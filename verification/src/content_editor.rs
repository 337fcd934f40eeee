//! Edits of content files: which paths may be edited, what a new file is
//! called, and what a link slot may link to.

use vstd::prelude::*;

use crate::order;
use crate::order::{less_or_same, sort_texts};
use crate::path;
use crate::path::{join_path, path_components, path_lies_under, split_file_name, SitePath};
use crate::schema::{Element, Grammar};
use crate::site;
use crate::slot_editor;
use crate::slot_editor::find_grammar_slot;
use crate::text;
use crate::text::{
    chars_of, ends_with, index_from, lines, same, starts_with, strip_prefix, text_between,
    trim, trim_end_matches, trim_start_matches,
};
use crate::unicode;

verus! {

/// An option for a link slot.
#[derive(Debug)]
pub struct LinkOption {
    pub label: String,
    pub value: String,
}

/// The mathematical counterpart of [`LinkOption`].
pub struct LinkOptionView {
    pub label: Seq<char>,
    pub value: Seq<char>,
}

impl View for LinkOption {
    type V = LinkOptionView;

    open spec fn view(&self) -> LinkOptionView {
        LinkOptionView { label: self.label@, value: self.value@ }
    }
}

/// The views of a list of options.
pub open spec fn option_views(v: Seq<LinkOption>) -> Seq<LinkOptionView> {
    v.map_values(|o: LinkOption| o@)
}

/// The message for a path that is not written as the path of a content file, or
/// nothing where it is.
pub open spec fn content_path_error(file: Seq<char>) -> Option<Seq<char>> {
    if !text::begins_with(file, "content/"@) {
        Some("file must start with 'content/': "@ + file)
    } else if path::components_of(file).contains(".."@) {
        Some("path traversal detected: "@ + file)
    } else if !text::finishes_with(file, ".md"@) {
        Some("file must end with '.md': "@ + file)
    } else {
        None
    }
}

/// `message` with `detail` behind it.
fn with_detail(message: &str, detail: &str) -> (r: String)
    ensures
        r@ == message@ + detail@,
{
    let mut out = message.to_owned();
    out.append(detail);
    out
}

/// Whether a path leads upwards: whether one of its components is `..`.
fn leads_upwards(file: &str) -> (r: bool)
    ensures
        r == path::components_of(file@).contains(".."@),
{
    let parts = path_components(file);
    let ghost views = text::texts(parts@);
    let mut i: usize = 0;
    while i < parts.len()
        invariant
            i <= parts.len(),
            views == text::texts(parts@),
            views == path::components_of(file@),
            forall|k: int| 0 <= k < i ==> (#[trigger] views[k]) != ".."@,
        decreases parts.len() - i,
    {
        proof {
            assert(views[i as int] == parts@[i as int]@);
        }
        if same(parts[i].as_str(), "..") {
            return true;
        }
        i += 1;
    }
    false
}

/// Check that a path is written as the path of a content file: it begins with
/// `content/`, ends with `.md`, and has no component `..`.
pub fn check_content_path(file: &str) -> (r: Result<(), String>)
    ensures
        match r {
            Ok(_) => content_path_error(file@) is None,
            Err(message) => content_path_error(file@) == Some(message@),
        },
{
    if !starts_with(file, "content/") {
        return Err(with_detail("file must start with 'content/': ", file));
    }
    if leads_upwards(file) {
        return Err(with_detail("path traversal detected: ", file));
    }
    if !ends_with(file, ".md") {
        return Err(with_detail("file must end with '.md': ", file));
    }
    Ok(())
}

/// What the file system says of a content path.
#[derive(Debug)]
pub struct PathLookup {
    /// Whether there is such a file.
    pub exists: bool,
    /// The path of the file with all links resolved, or why there is none.
    pub canonical: Result<String, String>,
    /// The path of the site with all links resolved, or why there is none.
    pub site_dir: Result<String, String>,
}

/// The path of a content file, or the message that says why it may not be
/// edited, given what the file system says of it.
pub open spec fn content_path_in(
    site_dir: Seq<char>,
    file: Seq<char>,
    lookup: PathLookup,
) -> Result<Seq<char>, Seq<char>> {
    match content_path_error(file) {
        Some(message) => Err(message),
        None => if !lookup.exists {
            Err("content file not found: "@ + file)
        } else {
            match (lookup.canonical, lookup.site_dir) {
                (Err(e), _) => Err("cannot resolve path: "@ + e@),
                (_, Err(e)) => Err("cannot resolve site dir: "@ + e@),
                (Ok(canonical), Ok(site)) => if path::lies_under(
                    path::components_of(canonical@),
                    path::components_of(site@),
                ) {
                    Ok(path::path_join(site_dir, file))
                } else {
                    Err("path traversal detected"@)
                },
            }
        },
    }
}

/// Validate a content path relative to the site, returning the path of the file
/// if it is safe to edit.
///
/// It has to begin with `content/`, end with `.md` and have no component `..`; the
/// file has to exist, and to lie under the site with all links resolved.
pub fn validate_content_path(site_dir: &str, file: &str, lookup: &PathLookup) -> (r: Result<
    String,
    String,
>)
    ensures
        match r {
            Ok(p) => content_path_in(site_dir@, file@, *lookup) == Ok::<Seq<char>, Seq<char>>(p@),
            Err(message) => content_path_in(site_dir@, file@, *lookup) == Err::<
                Seq<char>,
                Seq<char>,
            >(message@),
        },
{
    if let Err(message) = check_content_path(file) {
        return Err(message);
    }
    if !lookup.exists {
        return Err(with_detail("content file not found: ", file));
    }
    let canonical = match &lookup.canonical {
        Ok(p) => p,
        Err(e) => {
            return Err(with_detail("cannot resolve path: ", e.as_str()));
        },
    };
    let site = match &lookup.site_dir {
        Ok(p) => p,
        Err(e) => {
            return Err(with_detail("cannot resolve site dir: ", e.as_str()));
        },
    };
    if !path_lies_under(&SitePath::new(canonical.as_str()), &SitePath::new(site.as_str())) {
        return Err("path traversal detected".to_owned());
    }
    Ok(join_path(site_dir, file))
}

/// The schema stem of a content path: its second component, if it has one.
pub open spec fn stem_of_file(file: Seq<char>) -> Option<Seq<char>> {
    let parts = path::components_of(file);
    if parts.len() > 1 {
        Some(parts[1])
    } else {
        None
    }
}

/// Derive the schema stem from a content path: `content/post/hello.md` is a
/// `post`.
pub fn schema_stem(file: &str) -> (r: Option<String>)
    ensures
        text::opt_text(r) == stem_of_file(file@),
{
    let parts = path_components(file);
    proof {
        assert(path::components_of(file@).len() == parts.len());
    }
    if parts.len() > 1 {
        proof {
            assert(path::components_of(file@)[1] == parts@[1]@);
        }
        Some(parts[1].clone())
    } else {
        None
    }
}

/// Where the schema of a stem lies: in a directory of its own, or flat.
pub open spec fn schema_file(site_dir: Seq<char>, stem: Seq<char>, flat: bool) -> Seq<char> {
    let dir = path::path_join(site_dir, "schemas"@);
    if flat {
        path::path_join(dir, stem + ".md"@)
    } else {
        path::path_join(path::path_join(dir, stem), "item.md"@)
    }
}

/// Where the schema of a stem lies: in a directory of its own, or flat.
pub fn schema_file_path(site_dir: &str, stem: &str, flat: bool) -> (r: String)
    ensures
        r@ == schema_file(site_dir@, stem@, flat),
{
    let dir = join_path(site_dir, "schemas");
    if flat {
        let name = with_detail(stem, ".md");
        join_path(dir.as_str(), name.as_str())
    } else {
        let own = join_path(dir.as_str(), stem);
        join_path(own.as_str(), "item.md")
    }
}

/// The pattern of a link slot of a schema, or the message that says why there is
/// none.
pub open spec fn link_pattern(grammar: Grammar, stem: Seq<char>, slot: Seq<char>) -> Result<
    Seq<char>,
    Seq<char>,
> {
    let at = slot_editor::grammar_index(grammar.preamble@, slot);
    if at >= grammar.preamble@.len() {
        Err("slot '"@ + slot + "' not found in schema '"@ + stem + "'"@)
    } else {
        match grammar.preamble@[at].element {
            Element::Link { pattern } => Ok(pattern@),
            _ => Err("slot '"@ + slot + "' is not a Link slot"@),
        }
    }
}

/// The pattern of a link slot of a schema.
pub fn find_link_pattern(grammar: &Grammar, stem: &str, slot: &str) -> (r: Result<String, String>)
    ensures
        match r {
            Ok(p) => link_pattern(*grammar, stem@, slot@) == Ok::<Seq<char>, Seq<char>>(p@),
            Err(message) => link_pattern(*grammar, stem@, slot@) == Err::<Seq<char>, Seq<char>>(
                message@,
            ),
        },
{
    let at = find_grammar_slot(grammar, slot);
    if at == grammar.preamble.len() {
        let mut out = "slot '".to_owned();
        out.append(slot);
        out.append("' not found in schema '");
        out.append(stem);
        out.append("'");
        return Err(out);
    }
    match &grammar.preamble[at].element {
        Element::Link { pattern } => Ok(pattern.clone()),
        _ => {
            let mut out = "slot '".to_owned();
            out.append(slot);
            out.append("' is not a Link slot");
            Err(out)
        },
    }
}

/// `s` up to its first `c`, or all of it.
pub open spec fn before_first(s: Seq<char>, c: char) -> Seq<char> {
    s.take(text::first_index(s, c))
}

/// `s` up to its first `c`, or all of it.
pub fn text_before(s: &str, c: char) -> (r: String)
    ensures
        r@ == before_first(s@, c),
{
    let v = chars_of(s);
    let at = index_from(&v, 0, c);
    proof {
        assert(v@.skip(0) == v@);
        assert(v@.subrange(0, at as int) == v@.take(at as int));
    }
    text_between(&v, 0, at)
}

/// The content stem that a link pattern names, if it names one.
pub open spec fn stem_in_pattern(pattern: Seq<char>) -> Option<Seq<char>> {
    let segment = before_first(text::trim_start_char(pattern, '/'), '/');
    let clean = text::trimmed(text::trim_end_char(before_first(segment, '<'), '-'));
    if clean.len() == 0 {
        None
    } else {
        Some(clean)
    }
}

/// Extract the content stem from a link pattern: `/author/<name>` names
/// `author`.
pub fn stem_from_link_pattern(pattern: &str) -> (r: Option<String>)
    ensures
        text::opt_text(r) == stem_in_pattern(pattern@),
{
    let s = trim_start_matches(pattern, '/');
    let segment = text_before(s.as_str(), '/');
    let front = text_before(segment.as_str(), '<');
    let bare = trim_end_matches(front.as_str(), '-');
    let clean = trim(bare.as_str());
    if clean.as_str().is_empty() {
        None
    } else {
        Some(clean)
    }
}

/// The pattern with a slug in the place of each placeholder in angle brackets.
/// `inside` says whether a placeholder has begun.
pub open spec fn filled_from(pattern: Seq<char>, slug: Seq<char>, inside: bool) -> Seq<char>
    decreases pattern.len(),
{
    if pattern.len() == 0 {
        seq![]
    } else if pattern[0] == '<' {
        slug + filled_from(pattern.skip(1), slug, true)
    } else if pattern[0] == '>' {
        filled_from(pattern.skip(1), slug, false)
    } else if inside {
        filled_from(pattern.skip(1), slug, true)
    } else {
        seq![pattern[0]] + filled_from(pattern.skip(1), slug, false)
    }
}

/// Replace `<variable>` placeholders in a link pattern with the given slug.
pub fn url_from_pattern(pattern: &str, slug: &str) -> (r: String)
    ensures
        r@ == filled_from(pattern@, slug@, false),
{
    let v = chars_of(pattern);
    let mut out = String::new();
    let mut inside = false;
    let mut i: usize = 0;
    proof {
        assert(pattern@.skip(0) == pattern@);
        assert(out@ + filled_from(pattern@, slug@, false) =~= filled_from(pattern@, slug@, false));
    }
    while i < v.len()
        invariant
            i <= v.len(),
            v@ == pattern@,
            out@ + filled_from(pattern@.skip(i as int), slug@, inside) == filled_from(
                pattern@,
                slug@,
                false,
            ),
        decreases v.len() - i,
    {
        let c = v[i];
        let ghost before = out@;
        let ghost rest = pattern@.skip(i as int);
        proof {
            assert(rest[0] == c);
            assert(rest.skip(1) == pattern@.skip(i + 1));
        }
        if c == '<' {
            inside = true;
            out.append(slug);
            proof {
                let tail = filled_from(rest.skip(1), slug@, true);
                assert(before + (slug@ + tail) =~= out@ + tail);
            }
        } else if c == '>' {
            inside = false;
        } else if !inside {
            out.push(c);
            proof {
                let tail = filled_from(rest.skip(1), slug@, false);
                assert(before + (seq![c] + tail) =~= out@ + tail);
            }
        }
        i += 1;
    }
    proof {
        assert(out@ + Seq::<char>::empty() =~= out@);
    }
    out
}

/// `s` without the copies of `p` that it begins with.
pub open spec fn without_prefixes(s: Seq<char>, p: Seq<char>) -> Seq<char>
    decreases s.len(),
{
    if p.len() > 0 && text::begins_with(s, p) {
        without_prefixes(s.skip(p.len() as int), p)
    } else {
        s
    }
}

/// The title that the lines of a markdown text give it: the first line that
/// begins with `# `, without that.
pub open spec fn title_in(lines: Seq<Seq<char>>) -> Option<Seq<char>>
    decreases lines.len(),
{
    if lines.len() == 0 {
        None
    } else if text::begins_with(lines[0], "# "@) {
        Some(text::trimmed(without_prefixes(lines[0], "# "@)))
    } else {
        title_in(lines.skip(1))
    }
}

/// `s` without the copies of `p` that it begins with.
fn strip_prefixes(s: &str, p: &str) -> (r: String)
    requires
        p@.len() > 0,
    ensures
        r@ == without_prefixes(s@, p@),
    decreases s@.len(),
{
    match strip_prefix(s, p) {
        Some(rest) => strip_prefixes(rest.as_str(), p),
        None => s.to_owned(),
    }
}

/// Read the first top-level heading of a markdown text.
pub fn title_from_md(content: &str) -> (r: Option<String>)
    ensures
        text::opt_text(r) == title_in(text::lines_of(content@)),
{
    proof {
        reveal_strlit("# ");
    }
    let all = lines(content);
    let ghost views = text::texts(all@);
    let mut i: usize = 0;
    proof {
        assert(views.skip(0) == views);
    }
    while i < all.len()
        invariant
            i <= all.len(),
            views == text::texts(all@),
            "# "@.len() > 0,
            views == text::lines_of(content@),
            title_in(views.skip(i as int)) == title_in(views),
        decreases all.len() - i,
    {
        proof {
            assert(views.skip(i as int)[0] == all@[i as int]@);
            assert(views.skip(i as int).skip(1) == views.skip(i + 1));
        }
        if starts_with(all[i].as_str(), "# ") {
            let bare = strip_prefixes(all[i].as_str(), "# ");
            return Some(trim(bare.as_str()));
        }
        i += 1;
    }
    None
}

/// A file in a content directory.
#[derive(Debug)]
pub struct ContentFile {
    /// The name of the file.
    pub name: String,
    /// Its text, where it could be read.
    pub text: Option<String>,
}

/// The option that a file in a content directory makes, if it is a markdown
/// file: its title, or its name without the extension, and its URL.
pub open spec fn option_for(pattern: Seq<char>, file: ContentFile) -> Option<LinkOptionView> {
    if path::name_extension(file.name@) != Some("md"@) {
        None
    } else {
        let slug = path::name_stem(file.name@);
        let title = match file.text {
            Some(t) => title_in(text::lines_of(t@)),
            None => None,
        };
        Some(
            LinkOptionView {
                label: match title {
                    Some(t) => t,
                    None => slug,
                },
                value: filled_from(pattern, slug, false),
            },
        )
    }
}

/// The labels of a list of options.
pub open spec fn labels_of(options: Seq<LinkOptionView>) -> Seq<Seq<char>> {
    options.map_values(|o: LinkOptionView| o.label)
}

/// The options that the files of a content directory make, sorted by label.
/// Those with the same label keep the order of the files.
pub open spec fn options_for(pattern: Seq<char>, files: Seq<ContentFile>) -> Seq<LinkOptionView>
    decreases files.len(),
{
    if files.len() == 0 {
        seq![]
    } else {
        let before = options_for(pattern, files.drop_last());
        match option_for(pattern, files.last()) {
            Some(option) => before.insert(
                order::place_among(labels_of(before), option.label),
                option,
            ),
            None => before,
        }
    }
}

/// Collect the targets of a link slot from the files of a content directory,
/// sorted by label.
pub fn collect_link_options(pattern: &str, files: &Vec<ContentFile>) -> (r: Vec<LinkOption>)
    ensures
        option_views(r@) == options_for(pattern@, files@),
{
    let mut out: Vec<LinkOption> = Vec::new();
    let mut i: usize = 0;
    proof {
        assert(files@.take(0) =~= seq![]);
        assert(option_views(out@) =~= seq![]);
    }
    while i < files.len()
        invariant
            i <= files.len(),
            option_views(out@) == options_for(pattern@, files@.take(i as int)),
        decreases files.len() - i,
    {
        let file = &files[i];
        proof {
            assert(files@.take(i + 1).drop_last() == files@.take(i as int));
            assert(files@.take(i + 1).last() == *file);
        }
        let (slug, extension) = split_file_name(file.name.as_str());
        let is_md = match &extension {
            Some(e) => same(e.as_str(), "md"),
            None => false,
        };
        if is_md {
            let title = match &file.text {
                Some(t) => title_from_md(t.as_str()),
                None => None,
            };
            let value = url_from_pattern(pattern, slug.as_str());
            let label = match title {
                Some(t) => t,
                None => slug,
            };
            let option = LinkOption { label, value };
            let ghost view = option@;
            let ghost before = option_views(out@);
            let ghost labels = labels_of(before);
            let mut at: usize = out.len();
            proof {
                assert(labels.take(at as int) == labels);
            }
            while at > 0 && !less_or_same(out[at - 1].label.as_str(), option.label.as_str())
                invariant
                    at <= out.len(),
                    labels == labels_of(option_views(out@)),
                    order::place_among(labels.take(at as int), option.label@)
                        == order::place_among(labels, option.label@),
                decreases at,
            {
                proof {
                    assert(labels.take(at as int).last() == out@[at - 1].label@);
                    assert(labels.take(at as int).drop_last() == labels.take(at - 1));
                }
                at -= 1;
            }
            proof {
                if at > 0 {
                    assert(labels.take(at as int).last() == out@[at - 1].label@);
                }
                assert(at == order::place_among(labels, view.label));
            }
            out.insert(at, option);
            proof {
                assert(option_views(out@) =~= before.insert(at as int, view));
            }
        }
        i += 1;
    }
    proof {
        assert(files@.take(i as int) == files@);
    }
    out
}

/// The options of a link slot are in the order of their labels.
pub proof fn law_link_options_are_sorted(pattern: Seq<char>, files: Seq<ContentFile>)
    ensures
        order::is_sorted(labels_of(options_for(pattern, files))),
    decreases files.len(),
{
    if files.len() > 0 {
        let before = options_for(pattern, files.drop_last());
        law_link_options_are_sorted(pattern, files.drop_last());
        if let Some(option) = option_for(pattern, files.last()) {
            let at = order::place_among(labels_of(before), option.label);
            order::lemma_place_among(labels_of(before), option.label);
            order::lemma_insert_keeps_order(labels_of(before), option.label);
            assert(labels_of(before.insert(at, option)) =~= labels_of(before).insert(
                at,
                option.label,
            ));
        }
    }
}

/// Whether a character may stand in a slug. `alphanumeric` says whether it is a
/// letter or a digit.
pub open spec fn is_slug_char(c: char, alphanumeric: bool) -> bool {
    alphanumeric || c == '-'
}

/// Whether a text is a slug: letters, digits and dashes, at least one.
pub open spec fn is_slug(slug: Seq<char>) -> bool {
    slug.len() > 0 && forall|i: int|
        0 <= i < slug.len() ==> is_slug_char(#[trigger] slug[i], unicode::is_letter_or_digit(slug[i]))
}

/// Whether a text is a slug.
pub fn is_valid_slug(slug: &str) -> (r: bool)
    ensures
        r == is_slug(slug@),
{
    let v = chars_of(slug);
    let mut i: usize = 0;
    while i < v.len()
        invariant
            i <= v.len(),
            v@ == slug@,
            forall|k: int|
                0 <= k < i ==> is_slug_char(
                    #[trigger] slug@[k],
                    unicode::is_letter_or_digit(slug@[k]),
                ),
        decreases v.len() - i,
    {
        let c = v[i];
        if !(c.is_alphanumeric() || c == '-') {
            proof {
                assert(!is_slug_char(slug@[i as int], unicode::is_letter_or_digit(slug@[i as int])));
            }
            return false;
        }
        i += 1;
    }
    v.len() > 0
}

/// The message for content that may not be created, or nothing where it may.
/// `valid_slug` says whether the slug is one.
pub open spec fn new_content_error(
    stems: Seq<Seq<char>>,
    stem: Seq<char>,
    slug: Seq<char>,
    valid_slug: bool,
) -> Option<Seq<char>> {
    if !stems.contains(stem) {
        Some("unknown schema type: "@ + stem)
    } else if !valid_slug {
        Some("invalid slug: "@ + slug + " (use alphanumeric and dashes)"@)
    } else {
        None
    }
}

/// Check whether content of a schema may be created under a slug that is valid
/// or not.
pub fn check_new_content_with(stems: &Vec<String>, stem: &str, slug: &str, valid_slug: bool) -> (r:
    Result<(), String>)
    ensures
        match r {
            Ok(_) => new_content_error(text::texts(stems@), stem@, slug@, valid_slug) is None,
            Err(message) => new_content_error(text::texts(stems@), stem@, slug@, valid_slug) == Some(
                message@,
            ),
        },
{
    let mut known = false;
    let mut i: usize = 0;
    while i < stems.len()
        invariant
            i <= stems.len(),
            known ==> text::texts(stems@).contains(stem@),
            !known ==> forall|k: int| 0 <= k < i ==> (#[trigger] stems@[k])@ != stem@,
        decreases stems.len() - i,
    {
        if same(stems[i].as_str(), stem) {
            known = true;
            proof {
                assert(text::texts(stems@)[i as int] == stem@);
            }
        }
        i += 1;
    }
    if !known {
        proof {
            assert forall|k: int| 0 <= k < text::texts(stems@).len() implies text::texts(stems@)[k]
                != stem@ by {
                assert(text::texts(stems@)[k] == stems@[k]@);
            }
        }
        return Err(with_detail("unknown schema type: ", stem));
    }
    if !valid_slug {
        let mut out = with_detail("invalid slug: ", slug);
        out.append(" (use alphanumeric and dashes)");
        return Err(out);
    }
    Ok(())
}

/// Check whether content of a schema may be created under a slug.
pub fn check_new_content(stems: &Vec<String>, stem: &str, slug: &str) -> (r: Result<(), String>)
    ensures
        match r {
            Ok(_) => new_content_error(text::texts(stems@), stem@, slug@, is_slug(slug@)) is None,
            Err(message) => new_content_error(text::texts(stems@), stem@, slug@, is_slug(slug@))
                == Some(message@),
        },
{
    check_new_content_with(stems, stem, slug, is_valid_slug(slug))
}

/// Where new content goes: its path within the site, and its URL.
#[derive(Debug)]
pub struct NewContent {
    pub file: String,
    pub url: String,
}

/// The path of content within the site.
pub open spec fn new_content_file(stem: Seq<char>, slug: Seq<char>) -> Seq<char> {
    "content/"@ + stem + "/"@ + slug + ".md"@
}

/// Why content of a schema may not be created under a slug, if it may not: the
/// schema is not known, the slug is none, or there is such a file already.
pub open spec fn creation_error(
    stems: Seq<Seq<char>>,
    stem: Seq<char>,
    slug: Seq<char>,
    valid_slug: bool,
    exists: bool,
) -> Option<Seq<char>> {
    match new_content_error(stems, stem, slug, valid_slug) {
        Some(message) => Some(message),
        None => if exists {
            Some("content already exists: "@ + new_content_file(stem, slug))
        } else {
            None
        },
    }
}

/// Where new content of a schema goes, given whether there is such a file
/// already, and whether the slug is one or not.
pub fn create_content_with(
    stems: &Vec<String>,
    stem: &str,
    slug: &str,
    valid_slug: bool,
    exists: bool,
) -> (r: Result<NewContent, String>)
    ensures
        match r {
            Ok(new) => {
                &&& creation_error(text::texts(stems@), stem@, slug@, valid_slug, exists) is None
                &&& new.file@ == new_content_file(stem@, slug@)
                &&& new.url@ == "/"@ + stem@ + "/"@ + slug@
            },
            Err(message) => creation_error(
                text::texts(stems@),
                stem@,
                slug@,
                valid_slug,
                exists,
            ) == Some(message@),
        },
{
    if let Err(message) = check_new_content_with(stems, stem, slug, valid_slug) {
        return Err(message);
    }
    let mut file = with_detail("content/", stem);
    file.append("/");
    file.append(slug);
    file.append(".md");
    if exists {
        return Err(with_detail("content already exists: ", file.as_str()));
    }
    let mut url = with_detail("/", stem);
    url.append("/");
    url.append(slug);
    Ok(NewContent { file, url })
}

/// Where new content of a schema goes, given whether there is such a file
/// already.
pub fn create_content(stems: &Vec<String>, stem: &str, slug: &str, exists: bool) -> (r: Result<
    NewContent,
    String,
>)
    ensures
        match r {
            Ok(new) => {
                &&& creation_error(text::texts(stems@), stem@, slug@, is_slug(slug@), exists) is None
                &&& new.file@ == new_content_file(stem@, slug@)
                &&& new.url@ == "/"@ + stem@ + "/"@ + slug@
            },
            Err(message) => creation_error(
                text::texts(stems@),
                stem@,
                slug@,
                is_slug(slug@),
                exists,
            ) == Some(message@),
        },
{
    create_content_with(stems, stem, slug, is_valid_slug(slug), exists)
}

/// The schema stems of a site, sorted.
pub fn list_schemas(stems: &Vec<String>) -> (r: Vec<String>)
    ensures
        text::texts(r@) == order::sorted_texts(text::texts(stems@)),
{
    sort_texts(stems)
}

/// A text without angle brackets is kept.
proof fn lemma_filled_plain(a: Seq<char>, rest: Seq<char>, slug: Seq<char>)
    requires
        !a.contains('<'),
        !a.contains('>'),
    ensures
        filled_from(a + rest, slug, false) == a + filled_from(rest, slug, false),
        filled_from(a + rest, slug, true) == filled_from(rest, slug, true),
    decreases a.len(),
{
    let all = a + rest;
    if a.len() == 0 {
        assert(all =~= rest);
        assert(a + filled_from(rest, slug, false) =~= filled_from(rest, slug, false));
    } else {
        assert(a.contains(a[0]));
        let t = a.skip(1);
        assert(!t.contains('<') && !t.contains('>')) by {
            if t.contains('<') {
                let k = choose|k: int| 0 <= k < t.len() && t[k] == '<';
                assert(a[k + 1] == '<');
            }
            if t.contains('>') {
                let k = choose|k: int| 0 <= k < t.len() && t[k] == '>';
                assert(a[k + 1] == '>');
            }
        }
        lemma_filled_plain(t, rest, slug);
        assert(all[0] == a[0]);
        assert(all.skip(1) =~= t + rest);
        assert(seq![a[0]] + (t + filled_from(rest, slug, false)) =~= a + filled_from(
            rest,
            slug,
            false,
        ));
    }
}

/// The URL of a pattern has the slug in place of each name in angle brackets, and the
/// rest of the pattern as it is.
pub proof fn law_slug_takes_the_place_of_names(
    before: Seq<char>,
    name: Seq<char>,
    after: Seq<char>,
    slug: Seq<char>,
)
    requires
        !before.contains('<'),
        !before.contains('>'),
        !name.contains('<'),
        !name.contains('>'),
    ensures
        filled_from(before, slug, false) == before,
        filled_from(before + seq!['<'] + name + seq!['>'] + after, slug, false) == before + slug
            + filled_from(after, slug, false),
{
    let none = Seq::<char>::empty();
    lemma_filled_plain(before, none, slug);
    assert(before + none =~= before);
    assert(before + filled_from(none, slug, false) =~= before);
    let closing = seq!['>'] + after;
    let opening = seq!['<'] + (name + closing);
    lemma_filled_plain(before, opening, slug);
    lemma_filled_plain(name, closing, slug);
    assert(opening[0] == '<');
    assert(opening.skip(1) =~= name + closing);
    assert(closing[0] == '>');
    assert(closing.skip(1) =~= after);
    assert(before + seq!['<'] + name + seq!['>'] + after =~= before + opening);
    assert(before + (slug + filled_from(after, slug, false)) =~= before + slug + filled_from(
        after,
        slug,
        false,
    ));
}

/// What stands before a character that the start of a text does not hold.
proof fn lemma_before_first(a: Seq<char>, c: char, b: Seq<char>)
    requires
        !a.contains(c),
    ensures
        before_first(a, c) == a,
        before_first(a + seq![c] + b, c) == a,
{
    let all = a + seq![c] + b;
    assert forall|k: int| 0 <= k < a.len() implies a[k] != c && all[k] != c by {
        assert(a.contains(a[k]));
    }
    assert(all[a.len() as int] == c);
    text::lemma_first_index_is(a, c, a.len() as int);
    text::lemma_first_index_is(all, c, a.len() as int);
    assert(a.take(a.len() as int) =~= a);
    assert(all.take(a.len() as int) =~= a);
}

/// The stem of a pattern is its first segment, up to a name in angle brackets and the
/// dash before it.
pub proof fn law_stem_is_the_first_segment(stem: Seq<char>, tail: Seq<char>, name: Seq<char>)
    requires
        stem.len() > 0,
        !stem.contains('/'),
        !stem.contains('<'),
        stem.last() != '-',
        !text::is_white(stem[0]),
        !text::is_white(stem.last()),
        !name.contains('/'),
    ensures
        stem_in_pattern(seq!['/'] + stem + seq!['/'] + tail) == Some(stem),
        stem_in_pattern(seq!['/'] + stem) == Some(stem),
        stem_in_pattern(stem) == Some(stem),
        stem_in_pattern(seq!['/'] + stem + seq!['-', '<'] + name) == Some(stem),
{
    assert(stem.contains(stem[0]));
    text::lemma_trimmed_is(stem);
    lemma_before_first(stem, '/', tail);
    lemma_before_first(stem, '<', tail);
    text::law_trimming_takes_copies(seq!['/'], stem + seq!['/'] + tail, '/');
    text::law_trimming_takes_copies(seq!['/'], stem, '/');
    text::law_trimming_takes_copies(seq![], stem, '/');
    text::law_trimming_takes_copies(seq![], stem, '-');
    text::law_trimming_takes_copies(seq!['-'], stem, '-');
    assert(seq!['/'] + stem + seq!['/'] + tail =~= seq!['/'] + (stem + seq!['/'] + tail));
    assert(Seq::<char>::empty() + stem =~= stem);
    assert(stem + Seq::<char>::empty() =~= stem);
    let segment = stem + seq!['-', '<'] + name;
    assert(seq!['/'] + stem + seq!['-', '<'] + name =~= seq!['/'] + segment);
    text::law_trimming_takes_copies(seq!['/'], segment, '/');
    assert(!segment.contains('/')) by {
        if segment.contains('/') {
            let k = choose|k: int| 0 <= k < segment.len() && segment[k] == '/';
            if k < stem.len() {
                assert(stem[k] == '/');
            } else if k >= stem.len() + 2 {
                assert(name[k - stem.len() - 2] == '/');
            }
        }
    }
    lemma_before_first(segment, '/', tail);
    let dashed = stem + seq!['-'];
    assert(!dashed.contains('<')) by {
        if dashed.contains('<') {
            let k = choose|k: int| 0 <= k < dashed.len() && dashed[k] == '<';
            if k < stem.len() {
                assert(stem[k] == '<');
            }
        }
    }
    lemma_before_first(dashed, '<', name);
    assert(segment =~= dashed + seq!['<'] + name);
}

/// The title of a text is what the first line that begins with `# ` holds behind it,
/// without the white space around; lines before it do not matter.
pub proof fn law_title_is_the_first_heading(
    before: Seq<Seq<char>>,
    title: Seq<char>,
    after: Seq<Seq<char>>,
)
    requires
        forall|k: int|
            0 <= k < before.len() ==> !text::begins_with(#[trigger] before[k], seq!['#', ' ']),
        !text::begins_with(title, seq!['#', ' ']),
    ensures
        title_in(before) is None,
        title_in(before + seq![seq!['#', ' '] + title] + after) == Some(text::trimmed(title)),
    decreases before.len(),
{
    reveal_strlit("# ");
    assert("# "@ =~= seq!['#', ' ']);
    let line = seq!['#', ' '] + title;
    let all = before + seq![line] + after;
    if before.len() == 0 {
        assert(all[0] == line);
        assert(line.take(2) =~= "# "@);
        assert(line.skip(2) =~= title);
        assert(without_prefixes(title, "# "@) == title);
    } else {
        let rest = before.skip(1);
        assert forall|k: int| 0 <= k < rest.len() implies !text::begins_with(
            #[trigger] rest[k],
            seq!['#', ' '],
        ) by {
            assert(rest[k] == before[k + 1]);
        }
        law_title_is_the_first_heading(rest, title, after);
        assert(all[0] == before[0]);
        assert(!text::begins_with(before[0], seq!['#', ' ']));
        assert(all.skip(1) =~= rest + seq![line] + after);
    }
}

/// A markdown file is an option: its label is the title that its text has, or else the
/// name of the file without the extension, and its value is the pattern filled with that
/// name. Other files are none.
pub proof fn law_option_of_a_file(pattern: Seq<char>, file: ContentFile, slug: Seq<char>)
    requires
        slug.len() > 0,
    ensures
        file.name@ == slug + seq!['.', 'm', 'd'] ==> {
            &&& option_for(pattern, file) is Some
            &&& option_for(pattern, file)->0.value == filled_from(pattern, slug, false)
            &&& file.text is None ==> option_for(pattern, file)->0.label == slug
            &&& file.text is Some ==> option_for(pattern, file)->0.label == match title_in(
                text::lines_of(file.text->0@),
            ) {
                Some(title) => title,
                None => slug,
            }
        },
        path::name_extension(file.name@) != Some(seq!['m', 'd']) ==> option_for(
            pattern,
            file,
        ) is None,
{
    reveal_strlit("md");
    assert("md"@ =~= seq!['m', 'd']);
    assert(!seq!['m', 'd'].contains('.'));
    path::law_file_name_is_stem_and_extension(slug, seq!['m', 'd']);
    assert(slug + seq!['.'] + seq!['m', 'd'] =~= slug + seq!['.', 'm', 'd']);
}

/// The options are those of the files, all of them and no others.
pub proof fn law_options_are_those_of_the_files(
    pattern: Seq<char>,
    files: Seq<ContentFile>,
    option: LinkOptionView,
)
    ensures
        options_for(pattern, files).contains(option) <==> exists|i: int|
            0 <= i < files.len() && option_for(pattern, #[trigger] files[i]) == Some(option),
    decreases files.len(),
{
    let all = options_for(pattern, files);
    if files.len() > 0 {
        let front = files.drop_last();
        let before = options_for(pattern, front);
        law_options_are_those_of_the_files(pattern, front, option);
        let last = files.len() - 1;
        assert(files[last] == files.last());
        assert forall|i: int| 0 <= i < front.len() implies #[trigger] front[i] == files[i] by {}
        if exists|i: int|
            0 <= i < front.len() && option_for(pattern, #[trigger] front[i]) == Some(option) {
            let i = choose|i: int|
                0 <= i < front.len() && option_for(pattern, #[trigger] front[i]) == Some(option);
            assert(option_for(pattern, files[i]) == Some(option));
        }
        if exists|i: int|
            0 <= i < files.len() && option_for(pattern, #[trigger] files[i]) == Some(option) {
            let i = choose|i: int|
                0 <= i < files.len() && option_for(pattern, #[trigger] files[i]) == Some(option);
            if i < last {
                assert(option_for(pattern, front[i]) == Some(option));
            }
        }
        if let Some(new) = option_for(pattern, files.last()) {
            let at = order::place_among(labels_of(before), new.label);
            order::lemma_place_among(labels_of(before), new.label);
            lemma_inserted(before, at, new, option);
        }
    }
}

/// A list holds what is put into it and what it held.
proof fn lemma_inserted(
    before: Seq<LinkOptionView>,
    at: int,
    new: LinkOptionView,
    option: LinkOptionView,
)
    requires
        0 <= at <= before.len(),
    ensures
        before.insert(at, new).contains(option) <==> before.contains(option) || option == new,
{
    let all = before.insert(at, new);
    assert(all[at] == new);
    if before.contains(option) {
        let i = choose|i: int| 0 <= i < before.len() && before[i] == option;
        if i < at {
            assert(all[i] == option);
        } else {
            assert(all[i + 1] == option);
        }
    }
    if all.contains(option) {
        let i = choose|i: int| 0 <= i < all.len() && all[i] == option;
        if i < at {
            assert(before[i] == option);
        } else if i > at {
            assert(before[i - 1] == option);
        }
    }
}

/// A file is taken for content if and only if it lies in the content directory, does not
/// lead upwards and is markdown.
pub proof fn law_content_paths(rest: Seq<char>, file: Seq<char>)
    ensures
        !path::components_of("content/"@ + rest + ".md"@).contains(".."@) ==> content_path_error(
            "content/"@ + rest + ".md"@,
        ) is None,
        path::components_of(file).contains(".."@) ==> content_path_error(file) is Some,
        content_path_error(file) is None ==> text::begins_with(file, "content/"@)
            && text::finishes_with(file, ".md"@),
{
    let good = "content/"@ + rest + ".md"@;
    reveal_strlit("content/");
    reveal_strlit(".md");
    assert(good.take(8) =~= "content/"@);
    assert(good.skip(good.len() - 3) =~= ".md"@);
}

/// A path is handed out only for a file that exists and lies within the site, and it is
/// that of the file in the site.
pub proof fn law_handed_out_paths_lie_within(
    site_dir: Seq<char>,
    file: Seq<char>,
    lookup: PathLookup,
)
    ensures
        content_path_in(site_dir, file, lookup) is Ok <==> {
            &&& content_path_error(file) is None
            &&& lookup.exists
            &&& lookup.canonical is Ok
            &&& lookup.site_dir is Ok
            &&& path::components_of(lookup.site_dir->Ok_0@).is_prefix_of(
                path::components_of(lookup.canonical->Ok_0@),
            )
        },
        content_path_in(site_dir, file, lookup) matches Ok(p) ==> p == path::path_join(
            site_dir,
            file,
        ),
{
}

/// Content is created if and only if there is a schema for it, its slug is one, and it is
/// not there yet.
pub proof fn law_content_is_created_once(
    stems: Seq<Seq<char>>,
    stem: Seq<char>,
    slug: Seq<char>,
    valid_slug: bool,
    exists: bool,
)
    ensures
        creation_error(stems, stem, slug, valid_slug, exists) is None <==> (exists|i: int|
            0 <= i < stems.len() && #[trigger] stems[i] == stem) && valid_slug && !exists,
{
    if stems.contains(stem) {
        let i = choose|i: int| 0 <= i < stems.len() && stems[i] == stem;
        assert(stems[i] == stem);
    }
}

/// The stem of a file is the directory that it lies in below the content directory.
pub proof fn law_stem_of_a_content_file(stem: Seq<char>, slug: Seq<char>)
    requires
        site::is_plain_name(stem),
        site::is_plain_name(slug),
        stem != "."@,
    ensures
        stem_of_file(site::page_file(stem, slug)) == Some(stem),
        new_content_file(stem, slug) == site::page_file(stem, slug),
{
    site::law_page_file_reads_back(stem, slug);
    assert(new_content_file(stem, slug) =~= site::page_file(stem, slug));
}

/// Only a link slot has a link pattern, and it is its own.
pub proof fn law_link_pattern_is_that_of_the_slot(
    grammar: Grammar,
    stem: Seq<char>,
    slot: Seq<char>,
    k: int,
)
    requires
        slot_editor::is_first_named(grammar.preamble@, slot, k),
    ensures
        grammar.preamble@[k].element matches Element::Link { pattern } ==> link_pattern(
            grammar,
            stem,
            slot,
        ) == Ok::<Seq<char>, Seq<char>>(pattern@),
        !(grammar.preamble@[k].element is Link) ==> link_pattern(grammar, stem, slot) is Err,
{
    slot_editor::lemma_grammar_index_is(grammar.preamble@, slot, k);
}

/// A slug is made of letters, digits and dashes, and is not empty.
pub proof fn law_slugs_are_made_of_letters_digits_and_dashes(slug: Seq<char>)
    ensures
        is_slug(slug) <==> slug.len() > 0 && forall|k: int|
            0 <= k < slug.len() ==> #[trigger] slug[k] == '-' || unicode::is_letter_or_digit(
                slug[k],
            ),
{
    if slug.len() > 0 && forall|k: int|
        0 <= k < slug.len() ==> #[trigger] slug[k] == '-' || unicode::is_letter_or_digit(slug[k]) {
        assert forall|i: int| 0 <= i < slug.len() implies is_slug_char(
            #[trigger] slug[i],
            unicode::is_letter_or_digit(slug[i]),
        ) by {}
    }
}

/// The schema of a stem is a file named after it, or the item file in its directory, in
/// the directory of schemas.
pub proof fn law_places_of_schemas(site_dir: Seq<char>, stem: Seq<char>)
    requires
        site_dir.len() > 0,
        site::is_plain_name(stem),
        stem != "."@,
    ensures
        path::components_of(schema_file(site_dir, stem, true)) == path::components_of(site_dir)
            + seq!["schemas"@, stem + ".md"@],
        path::components_of(schema_file(site_dir, stem, false)) == path::components_of(site_dir)
            + seq!["schemas"@, stem, "item.md"@],
{
    reveal_strlit("schemas");
    reveal_strlit("item.md");
    reveal_strlit(".md");
    reveal_strlit(".");
    assert("."@.len() == 1);
    let dir = path::path_join(site_dir, "schemas"@);
    site::lemma_joined_name(site_dir, "schemas"@);
    site::lemma_joined_name(dir, stem);
    site::lemma_joined_name(path::path_join(dir, stem), "item.md"@);
    let name = stem + ".md"@;
    assert(!name.contains('/')) by {
        if name.contains('/') {
            let k = choose|k: int| 0 <= k < name.len() && name[k] == '/';
            if k < stem.len() {
                assert(stem[k] == '/');
            }
        }
    }
    site::lemma_joined_name(dir, name);
    let base = path::components_of(site_dir);
    assert(path::components_of(schema_file(site_dir, stem, true)) =~= base + seq![
        "schemas"@,
        name,
    ]);
    assert(path::components_of(schema_file(site_dir, stem, false)) =~= base + seq![
        "schemas"@,
        stem,
        "item.md"@,
    ]);
}

/// Why no path is handed out: there is no such file, it or the site cannot be resolved, or
/// it lies elsewhere.
pub proof fn law_reasons_for_refused_paths(
    site_dir: Seq<char>,
    file: Seq<char>,
    lookup: PathLookup,
)
    requires
        content_path_error(file) is None,
    ensures
        ({
            let refused = content_path_in(site_dir, file, lookup)->Err_0;
            &&& !lookup.exists ==> refused == "content file not found: "@ + file
            &&& lookup.exists && lookup.canonical is Err ==> refused == "cannot resolve path: "@
                + lookup.canonical->Err_0@
            &&& lookup.exists && lookup.canonical is Ok && lookup.site_dir is Err ==> refused
                == "cannot resolve site dir: "@ + lookup.site_dir->Err_0@
            &&& lookup.exists && lookup.canonical is Ok && lookup.site_dir is Ok
                && !path::components_of(lookup.site_dir->Ok_0@).is_prefix_of(
                path::components_of(lookup.canonical->Ok_0@),
            ) ==> refused == "path traversal detected"@
        }),
{
}

} // verus!
