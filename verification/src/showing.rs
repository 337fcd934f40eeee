//! How pages, files and lists are shown to clients.

use vstd::prelude::*;

use crate::conductor;
use crate::conductor::Conductor;
use crate::document::clone_texts;
use crate::path;
use crate::path::{path_lies_under, text_behind, SitePath};
use crate::protocol::{CommandResult, DependentFile, RenderMode, Response};
use crate::ranked;
use crate::ranked::ranked_set;
use crate::rebuild;
use crate::site;
use crate::site::{all_together, slug_from_url, stem_from_url_path, template_sources, together};
use crate::steps::{SchemaJob, SchemaOutcome, Step};
use crate::table;
use crate::text;

verus! {

/// What showing a page starts with: the page that was written is read, or it is
/// found out which schema shows the structure of the page.
pub open spec fn starts_render(url: Seq<char>, mode: RenderMode, r: Step) -> bool {
    match mode {
        RenderMode::View => {
            &&& r matches Step::ReadOutput { url: u, stem, slug }
            &&& u@ == url
            &&& stem@ == site::url_stem(url)
            &&& slug@ == site::url_slug(url)
        },
        RenderMode::Schema => r matches Step::SchemaKind { url: u } && u@ == url,
    }
}

/// Show a page, or the structure that its schema gives it.
pub fn render_page(url: &str, mode: RenderMode) -> (r: Step)
    ensures
        starts_render(url@, mode, r),
{
    match mode {
        RenderMode::View => Step::ReadOutput {
            url: url.to_owned(),
            stem: stem_from_url_path(url),
            slug: slug_from_url(url),
        },
        RenderMode::Schema => Step::SchemaKind { url: url.to_owned() },
    }
}

/// A page that was written was read, or could not be.
pub fn on_output(url: &str, result: Result<String, String>) -> (r: Step)
    ensures
        match result {
            Ok(page) => r matches Step::Done(c) && c.just(Response::PageRendered { html: page }),
            Err(e) => r.fails("no output for "@ + url@ + ": "@ + e@),
        },
{
    match result {
        Ok(html) => Step::Done(CommandResult::with_response(Response::PageRendered { html })),
        Err(e) => {
            let mut message = all_together("no output for ", url, ": ");
            message.append(e.as_str());
            Step::Done(CommandResult::error(message))
        },
    }
}

/// What showing the structure of a page goes on with: the schema is rendered with a
/// template of its stem.
pub open spec fn renders_schema(c: Conductor, url: Seq<char>, is_index: bool, r: Step) -> bool {
    let stem = site::url_stem(url);
    let key = conductor::shown_key(c.schemas@, stem, is_index);
    match table::found(c.schemas@, key) {
        None => r.fails("no schema for "@ + url + " (key="@ + key + ")"@),
        Some(entry) => match entry.grammar {
            Err(e) => r.fails("schema parse: "@ + e.message@),
            Ok(_) => {
                &&& r matches Step::RenderSchema(job)
                &&& job.url@ == url
                &&& job.stem@ == stem
                &&& job.is_index == is_index
                &&& job.grammar_key@ == key
                &&& job.templates@ == site::template_order(is_index)
            },
        },
    }
}

/// What comes of a schema that was rendered, or could not be.
pub open spec fn is_schema_shown(job: SchemaJob, outcome: SchemaOutcome, r: Step) -> bool {
    match outcome {
        SchemaOutcome::Rendered(page) => r matches Step::Done(c) && c.just(
            Response::PageRendered { html: page },
        ),
        SchemaOutcome::NoTemplate => r.fails("no template for stem "@ + job.stem@),
        SchemaOutcome::ParseFailed(e) => r.fails(e@),
        SchemaOutcome::RenderFailed(e) => r.fails("render: "@ + e@),
    }
}

/// A schema was rendered, or could not be.
pub fn on_schema_rendered(job: SchemaJob, outcome: SchemaOutcome) -> (r: Step)
    ensures
        is_schema_shown(job, outcome, r),
{
    match outcome {
        SchemaOutcome::Rendered(html) => Step::Done(
            CommandResult::with_response(Response::PageRendered { html }),
        ),
        SchemaOutcome::NoTemplate => Step::Done(
            CommandResult::error(together("no template for stem ", job.stem.as_str())),
        ),
        SchemaOutcome::ParseFailed(e) => Step::Done(CommandResult::error(e)),
        SchemaOutcome::RenderFailed(e) => Step::Done(
            CommandResult::error(together("render: ", e.as_str())),
        ),
    }
}

/// Whether one of the files that were asked for exists is known.
pub fn on_exists(exists: bool) -> (r: Step)
    ensures
        r.answers(Response::Exists(exists)),
{
    Step::Done(CommandResult::with_response(Response::Exists(exists)))
}

/// The files that depend on a schema were found.
pub fn on_dependents(files: Vec<DependentFile>) -> (r: Step)
    ensures
        r.answers(Response::Dependents(files)),
{
    Step::Done(CommandResult::with_response(Response::Dependents(files)))
}

/// The name of a file relative to the site, or its path where it lies elsewhere.
pub open spec fn name_in_site(file: Seq<char>, root: Seq<Seq<char>>) -> Seq<char> {
    if path::lies_under(path::components_of(file), root) {
        path::rest_of(file, root.len() as int)
    } else {
        file
    }
}

/// The names of files relative to the site.
pub open spec fn names_in_site(files: Seq<Seq<char>>, root: Seq<Seq<char>>) -> Seq<Seq<char>> {
    files.map_values(|f: Seq<char>| name_in_site(f, root))
}

/// The keys of the schemas with their sources.
pub open spec fn schema_pairs(schemas: Seq<(Seq<char>, conductor::SchemaEntry)>) -> Seq<
    (Seq<char>, Seq<char>),
> {
    schemas.map_values(|e: (Seq<char>, conductor::SchemaEntry)| (e.0, e.1.source@))
}

/// Pages that could not be built, each with the reasons.
pub open spec fn error_pairs(pairs: Seq<(String, Vec<String>)>) -> Seq<
    (Seq<char>, Seq<Seq<char>>),
> {
    pairs.map_values(|p: (String, Vec<String>)| (p.0@, text::texts(p.1@)))
}

impl Conductor {
    /// Whether a URL is that of an index page is known.
    pub fn on_schema_kind(&self, url: &str, is_index: bool) -> (r: Step)
        ensures
            renders_schema(*self, url@, is_index, r),
    {
        let stem = stem_from_url_path(url);
        let grammar_key = self.key_shown_by(stem.as_str(), is_index);
        match self.schemas.get(&grammar_key) {
            None => {
                let mut message = all_together("no schema for ", url, " (key=");
                message.append(grammar_key.as_str());
                message.append(")");
                Step::Done(CommandResult::error(message))
            },
            Some(entry) => match &entry.grammar {
                Err(e) => Step::Done(
                    CommandResult::error(together("schema parse: ", e.message.as_str())),
                ),
                Ok(_) => Step::RenderSchema(
                    SchemaJob {
                        url: url.to_owned(),
                        stem,
                        is_index,
                        grammar_key,
                        templates: template_sources(is_index),
                    },
                ),
            },
        }
    }

    /// The content files were found: they are listed relative to the site, sorted,
    /// each once.
    pub fn on_content_files(&self, files: &Vec<String>) -> (r: Step)
        ensures
            r matches Step::Done(c) && c.events@.len() == 0 && {
                &&& c.response matches Response::ContentList(names)
                &&& ranked::in_rank::<String>(text::texts(names@))
                &&& text::texts(names@).to_set() == names_in_site(
                    text::texts(files@),
                    path::components_of(self.site_dir@),
                ).to_set()
            },
    {
        let root = SitePath::new(self.site_dir.as_str());
        let parts = root.components();
        let depth: usize = parts.len();
        let ghost all = text::texts(files@);
        let mut out: Vec<String> = Vec::new();
        let mut i: usize = 0;
        proof {
            assert(text::texts(parts@).len() == parts@.len());
            assert(text::texts(out@) =~= names_in_site(all, root@).take(0));
        }
        while i < files.len()
            invariant
                i <= files.len(),
                all == text::texts(files@),
                depth == root@.len(),
                text::texts(out@) == names_in_site(all, root@).take(i as int),
            decreases files.len() - i,
        {
            let file = SitePath::new(files[i].as_str());
            let name = if path_lies_under(&file, &root) {
                text_behind(&file, depth)
            } else {
                files[i].clone()
            };
            let ghost before = out@;
            out.push(name);
            proof {
                assert(all[i as int] == files@[i as int]@);
                assert(text::texts(out@) =~= text::texts(before).push(name@));
                assert(text::texts(out@) =~= names_in_site(all, root@).take(i + 1));
            }
            i += 1;
        }
        proof {
            assert(names_in_site(all, root@).take(i as int) =~= names_in_site(all, root@));
            assert(ranked::views(out@) =~= text::texts(out@));
        }
        let names = ranked_set(out);
        proof {
            assert(ranked::views(names@) =~= text::texts(names@));
        }
        Step::Done(CommandResult::with_response(Response::ContentList(names)))
    }

    /// The keys of the schemas with their sources.
    pub fn all_schemas(&self) -> (r: Vec<(String, String)>)
        ensures
            site::pair_texts(r@) == schema_pairs(self.schemas@),
    {
        let mut out: Vec<(String, String)> = Vec::new();
        let mut i: usize = 0;
        while i < self.schemas.len()
            invariant
                i <= self.schemas@.len(),
                out@.len() == i,
                forall|k: int|
                    0 <= k < i ==> (#[trigger] out@[k]).0@ == self.schemas@[k].0 && out@[k].1@
                        == self.schemas@[k].1.source@,
            decreases self.schemas@.len() - i,
        {
            let entry = self.schemas.entry(i);
            out.push((entry.0.clone(), entry.1.source.clone()));
            i += 1;
        }
        proof {
            assert(site::pair_texts(out@) =~= schema_pairs(self.schemas@));
        }
        out
    }

    /// The pages that could not be built, each with the reasons.
    pub fn get_build_errors(&self) -> (r: Vec<(String, Vec<String>)>)
        ensures
            error_pairs(r@) == rebuild::seen_errors(self.build_errors@),
    {
        let mut out: Vec<(String, Vec<String>)> = Vec::new();
        let mut i: usize = 0;
        while i < self.build_errors.len()
            invariant
                i <= self.build_errors@.len(),
                out@.len() == i,
                forall|k: int|
                    0 <= k < i ==> (#[trigger] out@[k]).0@ == self.build_errors@[k].0
                        && text::texts(out@[k].1@) == text::texts(self.build_errors@[k].1@),
            decreases self.build_errors@.len() - i,
        {
            let entry = self.build_errors.entry(i);
            out.push((entry.0.clone(), clone_texts(&entry.1)));
            i += 1;
        }
        proof {
            assert(error_pairs(out@) =~= rebuild::seen_errors(self.build_errors@));
        }
        out
    }
}

/// To show a page reads what was written for its stem and its slug.
pub proof fn law_shown_page_is_that_of_the_url(stem: Seq<char>, slug: Seq<char>, r: Step)
    requires
        site::is_plain_name(stem),
        site::is_plain_name(slug),
        starts_render(site::page_url(stem, slug), RenderMode::View, r),
    ensures
        r is ReadOutput,
        r->ReadOutput_url@ == site::page_url(stem, slug),
        r->ReadOutput_stem@ == stem,
        r->ReadOutput_slug@ == slug,
{
    site::law_page_url_reads_back(stem, slug);
}

/// A file of the site is named by the rest of its path, and a file elsewhere by its whole
/// path.
pub proof fn law_names_of_files_in_the_site(names: Seq<Seq<char>>, k: int, file: Seq<char>, root: Seq<Seq<char>>)
    requires
        path::are_plain_names(names),
        0 <= k < names.len(),
    ensures
        name_in_site(
            seq!['/'] + text::joined(names, seq!['/']),
            seq![seq!['/']] + names.take(k),
        ) == text::joined(names.skip(k), seq!['/']),
        !root.is_prefix_of(path::components_of(file)) ==> name_in_site(file, root) == file,
{
    let whole = seq!['/'] + text::joined(names, seq!['/']);
    let segments = seq![Seq::<char>::empty()] + names;
    assert forall|i: int| 0 <= i < segments.len() implies !(#[trigger] segments[i]).contains(
        '/',
    ) by {
        if i > 0 {
            assert(segments[i] == names[i - 1]);
        }
    }
    reveal_strlit(".");
    assert(segments[0] != "."@) by {
        assert("."@.len() == 1);
    }
    path::law_components_are_the_segments_that_count(segments);
    text::lemma_joined_first(segments, seq!['/']);
    assert(segments.skip(1) =~= names);
    assert(text::joined(segments, seq!['/']) =~= whole);
    let keep = |s: Seq<char>| s.len() > 0 && s != "."@;
    Seq::filter_distributes_over_add(seq![Seq::<char>::empty()], names, keep);
    lemma_names_are_kept(names, keep);
    assert(seq![Seq::<char>::empty()].filter(keep) =~= seq![]) by {
        reveal_with_fuel(Seq::filter, 2);
        assert(seq![Seq::<char>::empty()].drop_last() =~= seq![]);
    }
    assert(segments.filter(keep) =~= names);
    let parts = path::components_of(whole);
    assert(parts =~= seq![seq!['/']] + names);
    assert(parts.take(k + 1) =~= seq![seq!['/']] + names.take(k));
    path::law_rest_of_a_path(names, k);
}

/// Names that all count are all kept.
proof fn lemma_names_are_kept(names: Seq<Seq<char>>, keep: spec_fn(Seq<char>) -> bool)
    requires
        forall|k: int| 0 <= k < names.len() ==> keep(#[trigger] names[k]),
    ensures
        names.filter(keep) == names,
    decreases names.len(),
{
    reveal(Seq::filter);
    if names.len() > 0 {
        let front = names.drop_last();
        assert forall|k: int| 0 <= k < front.len() implies keep(#[trigger] front[k]) by {
            assert(front[k] == names[k]);
        }
        lemma_names_are_kept(front, keep);
        assert(keep(names[names.len() - 1]));
        assert(front.push(names.last()) =~= names);
    }
}

/// The structure of a page is rendered from the schema that the page goes by, where that
/// can be read.
pub proof fn law_schema_of_a_page_is_rendered(
    c: Conductor,
    stem: Seq<char>,
    slug: Seq<char>,
    is_index: bool,
    r: Step,
)
    requires
        site::is_plain_name(stem),
        site::is_plain_name(slug),
        renders_schema(c, site::page_url(stem, slug), is_index, r),
    ensures
        conductor::grammar_of(c.schemas@, conductor::shown_key(c.schemas@, stem, is_index)) is Some
            <==> r is RenderSchema,
        r is RenderSchema ==> {
            &&& r->RenderSchema_0.stem@ == stem
            &&& r->RenderSchema_0.is_index == is_index
            &&& r->RenderSchema_0.grammar_key@ == conductor::shown_key(
                c.schemas@,
                stem,
                is_index,
            )
            &&& r->RenderSchema_0.url@ == site::page_url(stem, slug)
        },
{
    site::law_page_url_reads_back(stem, slug);
}

} // verus!
