use presemble::conductor::{link_title, Conductor, SchemaEntry};
use presemble::dep_graph::DependencyGraph;
use presemble::document::{ContentElement, Document, DocumentSlot, LinkTarget, LinkText};
use presemble::editorial::{
    Author, ContentPath, NedMutation, NedSuggestion, NedSuggestionStatus, SlotReading, SuggestionId,
    SuggestionStatus, SuggestionTarget,
};
use presemble::node_store::{
    find_attr_text, find_child_by_name, slot_shape_for_node, Edge, Node, NodeId, NodeStore,
    SlotShape,
};
use presemble::path::SitePath;
use presemble::populate::{ItemSource, StemContents, StemSchemas};
use presemble::protocol::{
    Command, CommandResult, ConductorEvent, DependentFile, FileClassification, RenderMode,
    Response,
};
use presemble::rebuild::{DocumentMeta, PageJob, RenderOutcome};
use presemble::schema::{
    BodyRules, Constraint, ContentConstraint, CountRange, Element, Grammar, HeadingLevel,
    HeadingLevelRange, Slot, SlotName, Span, Spanned,
};
use presemble::showing::{on_dependents, on_exists, on_output, on_schema_rendered};
use presemble::site::TemplateSource;
use presemble::steps::{
    Contents, NedOutcome, ScaffoldOutcome, SchemaOutcome, SiteContents, SlotConsumer, Step,
    WriteOutcome,
};
use presemble::suggesting::{on_ned_stamp, on_stamp};
use std::collections::BTreeMap;

// ── A site in memory ─────────────────────────────────────────────────────────

const SITE: &str = "/test-site";

/// A schema of the site: its key, its source, and its grammar.
#[derive(Clone, Copy)]
struct Schema {
    stem: &'static str,
    collection: bool,
    source: &'static str,
    grammar: fn() -> Grammar,
}

/// What surrounds the conductor: the files of the site, the store of nodes, the
/// templates, the programs.
struct Host {
    conductor: Conductor,
    /// What is on disk, by path.
    files: BTreeMap<String, String>,
    schemas: Vec<Schema>,
    /// The suggestions that were kept on disk, by path, with their status.
    kept: BTreeMap<String, String>,
    /// A file that cannot be written.
    unwritable: Option<String>,
    ids: usize,
    now: u128,
}

fn full(path: &str) -> String {
    if path.starts_with('/') { path.to_string() } else { format!("{SITE}/{path}") }
}

fn extension_of(path: &str) -> &str {
    path.rsplit('.').next().unwrap_or("")
}

/// The role of a file, by where it lies.
fn role_of(path: &str) -> FileClassification {
    let Some(rel) = path.strip_prefix(&format!("{SITE}/")) else {
        return FileClassification::Unknown;
    };
    let parts: Vec<&str> = rel.split('/').collect();
    let stem = match parts.len() {
        2 => String::new(),
        3 => parts[1].to_string(),
        _ => return FileClassification::Unknown,
    };
    let named = if parts.len() == 2 {
        parts[1].split('.').next().unwrap_or("").to_string()
    } else {
        stem.clone()
    };
    match parts[0] {
        "content" => FileClassification::Content { schema_stem: stem },
        "templates" => FileClassification::Template { schema_stem: named },
        "schemas" => FileClassification::Schema { stem: named },
        "assets" if extension_of(rel) == "css" => FileClassification::Stylesheet,
        "assets" => FileClassification::Asset,
        _ => FileClassification::Unknown,
    }
}

fn add_element(store: &mut NodeStore, tag: &str) -> NodeId {
    store.add_node(Node::Element(tag.to_string()))
}

fn add_text(store: &mut NodeStore, text: &str) -> NodeId {
    store.add_node(Node::Text(text.to_string()))
}

fn append_child(store: &mut NodeStore, parent: NodeId, child: NodeId) {
    store.add_edge(parent, Edge::Child(child));
}

fn add_attribute(store: &mut NodeStore, id: NodeId, name: &str, text: &str) {
    let value = add_text(store, text);
    store.add_edge(id, Edge::Attribute { name: name.to_string(), value });
}

fn add_content(store: &mut NodeStore, parent: NodeId, element: &ContentElement) {
    let (tag, text) = match element {
        ContentElement::Heading { text, .. } => ("heading", text.clone()),
        ContentElement::Paragraph { text } => ("paragraph", text.clone()),
        ContentElement::Link { text, .. } => ("link", text.clone()),
        ContentElement::Image { path, .. } => ("image", path.clone()),
        ContentElement::List { source } => ("list", source.clone()),
        ContentElement::LinkExpression { target, .. } => {
            let id = add_element(store, "link-expression");
            let goal = add_element(store, "link-target");
            if let LinkTarget::PathRef(path) = target {
                add_attribute(store, goal, "kind", "path-ref");
                add_attribute(store, goal, "value", path);
            }
            append_child(store, id, goal);
            append_child(store, parent, id);
            return;
        }
        _ => ("other", String::new()),
    };
    let id = add_element(store, tag);
    let leaf = add_text(store, &text);
    append_child(store, id, leaf);
    append_child(store, parent, id);
}

/// Put a document into a store.
fn document_to_store(document: &Document, store: &mut NodeStore, meta: &DocumentMeta) -> NodeId {
    let root = add_element(store, "document");
    add_attribute(store, root, "url", &meta.url);
    add_attribute(store, root, "stem", &meta.stem);
    add_attribute(store, root, "file", &meta.file);
    add_attribute(store, root, "page-kind", &meta.page_kind);
    let preamble = add_element(store, "preamble");
    append_child(store, root, preamble);
    for slot in document.preamble.iter() {
        let id = add_element(store, "slot");
        add_attribute(store, id, "name", slot.name.as_str());
        for element in slot.elements.iter() {
            add_content(store, id, &element.node);
        }
        append_child(store, preamble, id);
    }
    let body = add_element(store, "body");
    append_child(store, root, body);
    for element in document.body.iter() {
        add_content(store, body, &element.node);
    }
    root
}

/// Put what is shown of a document into a store.
fn page_to_store(store: &mut NodeStore, meta: &DocumentMeta) -> NodeId {
    let page = add_element(store, "page");
    add_attribute(store, page, "stem", &meta.stem);
    add_attribute(store, page, "page-kind", &meta.page_kind);
    page
}

/// The string literal that follows a marker, and what stands behind it.
fn literal_behind<'a>(program: &'a str, marker: &str) -> Option<(String, &'a str)> {
    let at = program.find(marker)? + marker.len();
    let rest = &program[at..];
    let open = rest.find('"')?;
    let mut out = String::new();
    let mut chars = rest[open + 1..].char_indices();
    while let Some((i, c)) = chars.next() {
        match c {
            '\\' => {
                if let Some((_, escaped)) = chars.next() {
                    out.push(if escaped == 'n' { '\n' } else { escaped });
                }
            }
            '"' => return Some((out, &rest[open + 1 + i + 1..])),
            _ => out.push(c),
        }
    }
    None
}

/// All string literals of a program.
fn literals(program: &str) -> Vec<String> {
    let mut out = Vec::new();
    let mut rest = program;
    while let Some((text, behind)) = literal_behind(rest, "") {
        out.push(text);
        rest = behind;
    }
    out
}

fn texts_below(store: &NodeStore, id: NodeId, out: &mut Vec<NodeId>) {
    if let Some(Node::Text(_)) = store.get(id) {
        out.push(id);
    }
    for child in store.children(id) {
        texts_below(store, child, out);
    }
}

fn document_in(store: &NodeStore, file: &str) -> Option<NodeId> {
    (0..store.nodes.len()).map(NodeId).find(|&id| {
        store.is_named(id, "document")
            && find_attr_text(store, id, "file").as_deref() == Some(file)
    })
}

/// Run a program on a store, as far as the programs of these tests go.
fn run_program(store: &mut NodeStore, program: &str) -> NedOutcome {
    let opened = program.matches('(').count();
    let closed = program.matches(')').count();
    if opened != closed {
        return NedOutcome::EvalFailed("unexpected end of input".to_string());
    }
    let Some((file, behind)) = literal_behind(program, "ned/doc-by-path ") else {
        return NedOutcome::NotSelection;
    };
    let Some(root) = document_in(store, &file) else {
        return NedOutcome::Selected(Vec::new());
    };
    let mut selected = vec![root];
    if program.contains("(ned/slot ") {
        let Some((name, _)) = literal_behind(behind, ") ") else {
            return NedOutcome::NotSelection;
        };
        let preamble = find_child_by_name(store, root, "preamble").unwrap();
        selected = store
            .children(preamble)
            .into_iter()
            .filter(|&s| find_attr_text(store, s, "name").as_deref() == Some(name.as_str()))
            .collect();
    } else if program.contains("(ned/body-at ") {
        let digits: String =
            behind.chars().skip_while(|c| !c.is_ascii_digit()).take_while(|c| c.is_ascii_digit()).collect();
        let index: usize = digits.parse().unwrap();
        let body = find_child_by_name(store, root, "body").unwrap();
        selected = store.children(body).get(index).copied().into_iter().collect();
    }
    let words = literals(program);
    let mut leaves = Vec::new();
    for &id in &selected {
        texts_below(store, id, &mut leaves);
    }
    for leaf in leaves {
        let old = store.text_of(leaf).unwrap();
        let new = if program.contains("(ned/set-text ") {
            words.last().unwrap().clone()
        } else if program.contains("(ned/search-replace ") {
            let n = words.len();
            old.replace(&words[n - 2], &words[n - 1])
        } else if program.contains("(ned/replace") {
            literal_behind(program, "ned/parse-body ").unwrap().0
        } else {
            old
        };
        store.nodes[leaf.0].node = Node::Text(new);
    }
    NedOutcome::Selected(selected)
}

/// A selection and a change as one program.
fn compose(suggestion: &NedSuggestion) -> Result<String, String> {
    let selection = &suggestion.selection;
    match &suggestion.mutation {
        NedMutation::SetText(text) => Ok(format!("(ned/set-text {selection} {text:?})")),
        NedMutation::SearchReplace { search, replace } => {
            Ok(format!("(ned/search-replace {selection} {search:?} {replace:?})"))
        }
        NedMutation::Delete => Ok(format!("(ned/delete {selection})")),
        NedMutation::Other(_) => Err("unsupported mutation".to_string()),
    }
}

fn element_text(element: &ContentElement) -> Option<String> {
    match element {
        ContentElement::Heading { text, .. } => Some(text.clone()),
        ContentElement::Paragraph { text } => Some(text.clone()),
        _ => None,
    }
}

impl Host {
    fn new(schemas: &[Schema], files: &[(&str, &str)]) -> Host {
        let mut host = Host {
            conductor: Conductor::new(SITE),
            files: files.iter().map(|(p, t)| (full(p), t.to_string())).collect(),
            schemas: schemas.to_vec(),
            kept: BTreeMap::new(),
            unwritable: None,
            ids: 0,
            now: 1_000_000_000_000,
        };
        let step = host.conductor.start();
        host.run(step);
        host
    }

    fn handle(&mut self, cmd: Command) -> CommandResult {
        let step = self.conductor.handle_command(cmd);
        self.run(step)
    }

    fn respond(&mut self, cmd: Command) -> Response {
        self.handle(cmd).response
    }

    fn has(&self, path: String) -> bool {
        self.files.contains_key(&path)
    }

    fn has_template(&self, stem: &str, source: TemplateSource) -> bool {
        let names: Vec<String> = match source {
            TemplateSource::Collection if stem.is_empty() => vec!["index".to_string()],
            TemplateSource::Collection => vec![format!("{stem}/index")],
            TemplateSource::Item => vec![format!("{stem}/item"), stem.to_string()],
            TemplateSource::Partial => vec![format!("partials/{stem}")],
        };
        names.iter().any(|n| {
            self.has(format!("{SITE}/templates/{n}.hiccup"))
                || self.has(format!("{SITE}/templates/{n}.html"))
        })
    }

    fn render(&self, job: &PageJob) -> RenderOutcome {
        if job.templates.iter().any(|&t| self.has_template(&job.stem, t)) {
            RenderOutcome::Written
        } else {
            RenderOutcome::NoTemplate
        }
    }

    fn stems(&self) -> Vec<String> {
        let mut stems: Vec<String> = self.schemas.iter().map(|s| s.stem.to_string()).collect();
        stems.sort();
        stems.dedup();
        stems
    }

    fn content_of(&self, stem: &str) -> Vec<(String, String)> {
        let dir =
            if stem.is_empty() { format!("{SITE}/content/") } else { format!("{SITE}/content/{stem}/") };
        self.files
            .iter()
            .filter_map(|(path, text)| {
                let name = path.strip_prefix(&dir)?;
                let slug = name.strip_suffix(".md")?;
                if slug.contains('/') { None } else { Some((slug.to_string(), text.clone())) }
            })
            .collect()
    }

    /// The files that each page is built from: its content, and the schemas and
    /// templates of its stem.
    fn dependencies(&self) -> DependencyGraph {
        let mut graph = DependencyGraph::new();
        for stem in self.stems() {
            let dir = if stem.is_empty() { String::new() } else { format!("{stem}/") };
            for (slug, _) in self.content_of(&stem) {
                let url = if slug == "index" { format!("/{dir}") } else { format!("/{dir}{slug}") };
                let page = SitePath::new(&url);
                let mut sources = graph.sources_for(&page);
                sources.insert(SitePath::new(&full(&format!("content/{dir}{slug}.md"))));
                for path in self.files.keys() {
                    let built_from = match role_of(path) {
                        FileClassification::Template { schema_stem } => schema_stem == stem,
                        FileClassification::Schema { stem: named } => named == stem,
                        _ => false,
                    };
                    if built_from {
                        sources.insert(SitePath::new(path));
                    }
                }
                graph.register(page, sources);
            }
        }
        graph
    }

    fn site_contents(&self, paths: &[String]) -> SiteContents {
        let entry = |s: &Schema| SchemaEntry {
            source: s.source.to_string(),
            grammar: Ok((s.grammar)()),
        };
        let mut schemas = Vec::new();
        let mut contents = Vec::new();
        for stem in self.stems() {
            schemas.push(StemSchemas {
                stem: stem.clone(),
                item: self.schemas.iter().find(|s| s.stem == stem && !s.collection).map(entry),
                collection: self.schemas.iter().find(|s| s.stem == stem && s.collection).map(entry),
            });
            let all = self.content_of(&stem);
            contents.push(StemContents {
                stem: stem.clone(),
                items: all
                    .iter()
                    .filter(|(slug, _)| slug != "index")
                    .map(|(slug, text)| ItemSource { slug: slug.clone(), text: Some(text.clone()) })
                    .collect(),
                collection: all.iter().find(|(slug, _)| slug == "index").map(|(_, t)| t.clone()),
            });
        }
        SiteContents {
            schemas,
            contents,
            has_root_template: self.has_template("", TemplateSource::Collection),
            kinds: paths.iter().map(|p| role_of(p)).collect(),
            dependencies: self.dependencies(),
        }
    }

    fn take_store(&mut self) -> NodeStore {
        std::mem::replace(&mut self.conductor.store, NodeStore::new())
    }

    fn next_id(&mut self) -> SuggestionId {
        self.ids += 1;
        SuggestionId(format!("s-{}", self.ids))
    }

    /// Do what the steps ask for until the command is done.
    fn run(&mut self, first: Step) -> CommandResult {
        let mut step = first;
        loop {
            step = match step {
                Step::Done(result) => return result,
                Step::ReadFile { path, next } => {
                    let text = self.files.get(&path).cloned();
                    self.conductor.on_text(next, text)
                }
                Step::Probe { target, next } => {
                    let text = self.files.get(&target.path).cloned();
                    self.conductor.on_probed(target, next, text.is_some(), text)
                }
                Step::Classify { path, next } => self.conductor.on_kind(next, role_of(&path)),
                Step::Stat { paths, named } => {
                    let times: Vec<Option<i128>> =
                        paths.iter().map(|p| self.files.get(p).map(|t| t.len() as i128)).collect();
                    let now = self.now;
                    self.conductor.on_stat(&named, &times, now)
                }
                Step::Exists { paths } => {
                    on_exists(paths.iter().any(|p| self.files.contains_key(p)))
                }
                Step::StoreDocument { document, next } => {
                    let mut store = self.take_store();
                    let root = document_to_store(&document, &mut store, &next.meta);
                    self.conductor.on_stored(next, store, root)
                }
                Step::LinkDocument { root: _, next } => {
                    let mut store = self.take_store();
                    let semantic = page_to_store(&mut store, &next.meta);
                    self.conductor.on_linked(next, store, semantic)
                }
                Step::RenderPages(task) => {
                    let outcomes: Vec<RenderOutcome> =
                        task.jobs.iter().map(|j| self.render(j)).collect();
                    let store = self.take_store();
                    self.conductor.on_rendered(task, store, &outcomes)
                }
                Step::Reload { paths, goal } => {
                    let contents = self.site_contents(&paths);
                    self.conductor.on_reloaded(goal, contents)
                }
                Step::Populate(task) => {
                    let mut store = NodeStore::new();
                    let roots: Vec<NodeId> = task
                        .documents
                        .iter()
                        .map(|d| document_to_store(&d.document, &mut store, &d.meta))
                        .collect();
                    let semantics: Vec<NodeId> = task
                        .order
                        .iter()
                        .map(|&at| page_to_store(&mut store, &task.documents[at].meta))
                        .collect();
                    self.conductor.on_populated(task, store, &roots, &semantics)
                }
                Step::Evaluate { program, next } => {
                    let mut store = self.take_store();
                    let outcome = run_program(&mut store, &program);
                    self.conductor.on_evaluated(next, store, outcome)
                }
                Step::ModifySlot { root, grammar_key: _, file, slot, value, next } => {
                    let preamble = find_child_by_name(&self.conductor.store, root, "preamble");
                    let kids = preamble.map(|p| self.conductor.store.children(p)).unwrap_or_default();
                    let found = kids.into_iter().find(|&s| {
                        find_attr_text(&self.conductor.store, s, "name").as_deref()
                            == Some(slot.as_str())
                    });
                    match found {
                        None => self.conductor.on_modified(
                            &file,
                            next,
                            Err(format!("slot '{slot}' is not present in the document")),
                        ),
                        Some(id) if self.conductor.store.children(id).len() > 1 => {
                            self.conductor.on_modified(
                                &file,
                                next,
                                Err(format!("slot '{slot}' is multi-element")),
                            )
                        }
                        Some(id) => {
                            let mut store = self.take_store();
                            let element = add_element(&mut store, "paragraph");
                            let leaf = add_text(&mut store, &value);
                            append_child(&mut store, element, leaf);
                            append_child(&mut store, id, element);
                            self.conductor.on_modified(&file, next, Ok(store))
                        }
                    }
                }
                Step::ReadSlot { document, grammar_key: _, slot, next } => {
                    let texts: Vec<Option<String>> = document
                        .preamble
                        .iter()
                        .filter(|s| s.name.as_str() == slot)
                        .flat_map(|s| s.elements.iter().map(|e| element_text(&e.node)))
                        .collect();
                    let reading = match texts.len() {
                        0 => SlotReading::Other,
                        1 => match texts.into_iter().next().unwrap() {
                            Some(text) => SlotReading::Text(text),
                            None => SlotReading::Other,
                        },
                        _ => SlotReading::List(texts),
                    };
                    self.conductor.on_slot(next, reading)
                }
                Step::Stamp(task) => {
                    let id = self.next_id();
                    on_stamp(task, id, 1_700_000_000)
                }
                Step::StampNed(draft) => {
                    let id = self.next_id();
                    on_ned_stamp(draft, id, 0, Conductor::workspace_hash(None))
                }
                Step::Compose(suggestion) => {
                    let program = compose(&suggestion);
                    self.conductor.on_composed(suggestion, program)
                }
                Step::Persist(task) => {
                    let dir = self.conductor.suggestions_dir();
                    let file = presemble::deciding::suggestion_file(&dir, &task.suggestion.id);
                    self.kept.insert(file, format!("{:?}", task.suggestion.status));
                    self.conductor.on_persisted(task, Ok(()))
                }
                Step::PersistNed(task) => {
                    let dir = self.conductor.ned_suggestions_dir();
                    let file = presemble::deciding::suggestion_file(&dir, &task.suggestion.id);
                    self.kept.insert(file, format!("{:?}", task.suggestion.status));
                    self.conductor.on_ned_persisted(task, Ok(()))
                }
                Step::Write(task) => {
                    let mut times = Vec::new();
                    let mut error = None;
                    for file in &task.files {
                        if self.unwritable.as_ref() == Some(&file.path) {
                            error = Some("disk is full".to_string());
                            break;
                        }
                        let text = match &file.contents {
                            Contents::Text(text) => text.clone(),
                            Contents::Document(root) => {
                                let mut leaves = Vec::new();
                                texts_below(&self.conductor.store, *root, &mut leaves);
                                leaves
                                    .into_iter()
                                    .map(|l| self.conductor.store.text_of(l).unwrap() + "\n")
                                    .collect()
                            }
                        };
                        times.push(Some(text.len() as i128));
                        self.files.insert(file.path.clone(), text);
                    }
                    let now = self.now;
                    self.conductor.on_written(task, WriteOutcome { times, now, error })
                }
                Step::CreateContent { stem, slug } => {
                    let exists = self.has(format!("{SITE}/content/{stem}/{slug}.md"));
                    let result = presemble::content_editor::create_content(
                        &self.stems(),
                        &stem,
                        &slug,
                        exists,
                    )
                    .map(|new| (full(&new.file), new.url));
                    if let Ok((path, _)) = &result {
                        self.files.insert(path.clone(), String::new());
                    }
                    self.conductor.on_created(stem, result)
                }
                Step::Scaffold { template_name, .. } => {
                    let outcome = if template_name == "blog" {
                        let path = full("content/post/welcome.md");
                        self.files.insert(path.clone(), "# Welcome\n".to_string());
                        ScaffoldOutcome::Written { files: vec![(path, 10)], now: self.now }
                    } else {
                        ScaffoldOutcome::UnknownTemplate
                    };
                    self.conductor.on_scaffolded(&template_name, outcome)
                }
                Step::Dependents { stem } => {
                    let files = self
                        .files
                        .keys()
                        .map(|p| DependentFile { path: p.clone(), kind: role_of(p) })
                        .filter(|d| match &d.kind {
                            FileClassification::Content { schema_stem } => *schema_stem == stem,
                            FileClassification::Template { schema_stem } => *schema_stem == stem,
                            FileClassification::Schema { stem: s } => *s == stem,
                            _ => false,
                        })
                        .collect();
                    on_dependents(files)
                }
                Step::ContentFiles => {
                    let files: Vec<String> = self
                        .files
                        .keys()
                        .filter(|p| p.starts_with(&format!("{SITE}/content/")))
                        .cloned()
                        .collect();
                    self.conductor.on_content_files(&files)
                }
                Step::ReadOutput { url, stem, slug } => {
                    let path = format!("{SITE}/output/{stem}/{slug}.html");
                    let page = self.files.get(&path).cloned().ok_or("not found".to_string());
                    on_output(&url, page)
                }
                Step::SchemaKind { url } => {
                    let is_index = url.ends_with('/');
                    self.conductor.on_schema_kind(&url, is_index)
                }
                Step::RenderSchema(job) => {
                    let outcome =
                        if job.templates.iter().any(|&t| self.has_template(&job.stem, t)) {
                            SchemaOutcome::Rendered(format!("<{}>", job.grammar_key))
                        } else {
                            SchemaOutcome::NoTemplate
                        };
                    on_schema_rendered(job, outcome)
                }
            };
        }
    }
}

// ── Grammars ─────────────────────────────────────────────────────────────────

fn levels(min: u8, max: u8) -> HeadingLevelRange {
    HeadingLevelRange {
        min: HeadingLevel::new(min).unwrap(),
        max: HeadingLevel::new(max).unwrap(),
    }
}

fn slot(name: &str, element: Element, occurs: CountRange) -> Slot {
    Slot { name: SlotName::new(name), element, constraints: vec![Constraint::Occurs(occurs)] }
}

fn title_slot(name: &str) -> Slot {
    slot(name, Element::Heading { level: levels(1, 1) }, CountRange::Exactly(1))
}

/// One title, and no body.
fn title_grammar() -> Grammar {
    Grammar { preamble: vec![title_slot("title")], body: None }
}

/// One heading, and no body.
fn heading_grammar() -> Grammar {
    Grammar { preamble: vec![title_slot("heading")], body: None }
}

/// A capitalized title, and a body.
fn post_grammar() -> Grammar {
    let mut title = title_slot("title");
    title.constraints.push(Constraint::Content(ContentConstraint::Capitalized));
    Grammar { preamble: vec![title], body: Some(BodyRules { heading_range: None }) }
}

/// A capitalized title, and a summary of one to three paragraphs.
fn article_grammar() -> Grammar {
    let mut title = title_slot("title");
    title.constraints.push(Constraint::Content(ContentConstraint::Capitalized));
    Grammar {
        preamble: vec![
            title,
            slot("summary", Element::Paragraph, CountRange::Between { min: 1, max: 3 }),
        ],
        body: None,
    }
}

const POST_SCHEMA_SRC: &str =
    "# Post title {#title}\noccurs\n: exactly once\ncontent\n: capitalized\n\n----\nBody.\n";

const POST_TEMPLATE_SRC: &str =
    r#"<html><body><presemble:insert data="post.title" as="h1"></presemble:insert></body></html>"#;

const ARTICLE_SCHEMA_SRC: &str = "# Your blog post title {#title}\noccurs\n: exactly once\ncontent\n: capitalized\n\nYour article summary. {#summary}\noccurs\n: 1..3\n";

const ITEM_SCHEMA_SRC: &str = "# Post title {#title}\noccurs\n: exactly once\n";

fn item(stem: &'static str, source: &'static str, grammar: fn() -> Grammar) -> Schema {
    Schema { stem, collection: false, source, grammar }
}

fn collection(stem: &'static str, source: &'static str, grammar: fn() -> Grammar) -> Schema {
    Schema { stem, collection: true, source, grammar }
}

fn empty_conductor() -> Host {
    Host::new(&[], &[])
}

fn minimal_post_conductor() -> Host {
    Host::new(&[item("post", POST_SCHEMA_SRC, post_grammar)], &[])
}

fn article_conductor_with_file() -> Host {
    Host::new(
        &[item("article", ARTICLE_SCHEMA_SRC, article_grammar)],
        &[("content/article/test.md", "# Old Title\n\nSome summary text.\n")],
    )
}

fn two_post_conductor() -> Host {
    Host::new(
        &[item("post", POST_SCHEMA_SRC, post_grammar)],
        &[
            ("schemas/post/item.md", POST_SCHEMA_SRC),
            ("templates/post/item.hiccup", "[:html [:body [:h1 (get input :title)]]]"),
            ("content/post/first.md", "# First Post\n\n----\n\nBody of first.\n"),
            ("content/post/second.md", "# Second Post\n\n----\n\nBody of second.\n"),
        ],
    )
}

fn multi_paragraph_conductor() -> Host {
    Host::new(
        &[item("article", ARTICLE_SCHEMA_SRC, article_grammar)],
        &[(
            "content/article/multi.md",
            "# Multi Para Title\n\nFirst summary paragraph.\n\nSecond summary paragraph.\n",
        )],
    )
}

fn root_of(host: &Host, file: &str) -> Option<NodeId> {
    host.conductor.doc_root_for_path(&SitePath::new(file))
}

/// The text of the slot of a document in the store.
fn slot_text(host: &Host, file: &str, name: &str) -> Option<String> {
    let store = &host.conductor.store;
    let preamble = find_child_by_name(store, root_of(host, file)?, "preamble")?;
    store
        .children(preamble)
        .into_iter()
        .filter(|&s| find_attr_text(store, s, "name").as_deref() == Some(name))
        .flat_map(|s| store.children(s))
        .flat_map(|e| store.children(e))
        .find_map(|t| store.text_of(t))
}

fn spanned(node: ContentElement) -> Spanned<ContentElement> {
    Spanned { node, span: Span { start: 0, end: 0 } }
}

fn is_dirty(host: &Host, file: &str) -> bool {
    host.conductor.dirty_docs().contains(&SitePath::new(file))
}

// ── Commands that need no site ───────────────────────────────────────────────

#[test]
fn conductor_ping_returns_pong() {
    let mut host = empty_conductor();
    let result = host.handle(Command::Ping);
    assert!(matches!(result.response, Response::Pong));
    assert!(result.events.is_empty());
}

#[test]
fn conductor_shutdown_returns_ok() {
    let mut host = empty_conductor();
    let result = host.handle(Command::Shutdown);
    assert!(matches!(result.response, Response::Done));
}

#[test]
fn conductor_get_build_errors_returns_empty() {
    let mut host = empty_conductor();
    match host.respond(Command::GetBuildErrors) {
        Response::BuildErrors(errors) => assert!(errors.is_empty()),
        other => panic!("expected BuildErrors, got {other:?}"),
    }
}

#[test]
fn conductor_get_document_text_missing_returns_none() {
    let mut host = empty_conductor();
    let path = "/nonexistent/file.md".to_string();
    match host.respond(Command::GetDocumentText { path }) {
        Response::DocumentText(None) => {}
        other => panic!("expected DocumentText(None), got {other:?}"),
    }
}

// ── Documents in editors ─────────────────────────────────────────────────────

#[test]
fn document_changed_stores_in_memory() {
    let mut host = empty_conductor();
    let path = "/test-site/content/article/test.md".to_string();
    let text = "# My Title\n".to_string();

    let result =
        host.handle(Command::DocumentChanged { path: path.clone(), text: text.clone() });
    assert!(matches!(result.response, Response::Done));
    for event in &result.events {
        assert!(
            matches!(event, ConductorEvent::BuildFailed { .. }),
            "unexpected event type: {event:?}"
        );
    }

    match host.respond(Command::GetDocumentText { path }) {
        Response::DocumentText(Some(got)) => assert_eq!(got, text),
        other => panic!("expected DocumentText(Some(...)), got {other:?}"),
    }
}

#[test]
fn document_changed_does_not_write_to_disk() {
    let mut host = empty_conductor();
    let path = "/test-site/content/article/test.md";
    let result = host.handle(Command::DocumentChanged {
        path: path.to_string(),
        text: "# Hello\n".to_string(),
    });
    assert!(matches!(result.response, Response::Done));
    assert!(!host.files.contains_key(path), "DocumentChanged should not write to disk");
}

#[test]
fn document_saved_clears_memory() {
    let mut host = empty_conductor();
    let path = "/test-site/content/article/test.md".to_string();
    let text = "# My Title\n".to_string();

    host.handle(Command::DocumentChanged { path: path.clone(), text });
    let held = host.respond(Command::GetDocumentText { path: path.clone() });
    assert!(matches!(held, Response::DocumentText(Some(_))));

    host.handle(Command::DocumentSaved { path: path.clone() });
    let gone = host.respond(Command::GetDocumentText { path });
    assert!(matches!(gone, Response::DocumentText(None)));
}

#[test]
fn document_changed_emits_pages_rebuilt_when_site_has_schema_and_template() {
    let mut host = Host::new(
        &[item("post", POST_SCHEMA_SRC, post_grammar)],
        &[
            ("schemas/post/item.md", POST_SCHEMA_SRC),
            ("templates/post/item.html", POST_TEMPLATE_SRC),
        ],
    );
    let result = host.handle(Command::DocumentChanged {
        path: full("content/post/hello.md"),
        text: "# My Post Title\n\n----\n\nSome body content.\n".to_string(),
    });

    assert!(matches!(result.response, Response::Done), "expected Done");
    assert_eq!(result.events.len(), 1, "expected one PagesRebuilt event");
    match &result.events[0] {
        ConductorEvent::PagesRebuilt { pages, anchor } => {
            assert_eq!(pages, &vec!["/post/hello".to_string()]);
            assert!(anchor.is_none());
        }
        other => panic!("expected PagesRebuilt, got {other:?}"),
    }
}

#[test]
fn document_changed_emits_build_failed_when_no_template_exists() {
    let mut host = minimal_post_conductor();
    let result = host.handle(Command::DocumentChanged {
        path: "/test-site/content/post/hello.md".to_string(),
        text: "# My Title\n".to_string(),
    });

    assert!(matches!(result.response, Response::Done));
    assert_eq!(result.events.len(), 1, "expected one BuildFailed event");
    match &result.events[0] {
        ConductorEvent::BuildFailed { error_pages } => {
            assert!(error_pages.contains(&"/post/hello".to_string()));
        }
        other => panic!("expected BuildFailed, got {other:?}"),
    }
}

#[test]
fn a_page_that_builds_again_has_no_errors() {
    let mut host = minimal_post_conductor();
    let path = "/test-site/content/post/hello.md".to_string();
    let text = "# My Title\n".to_string();
    host.handle(Command::DocumentChanged { path: path.clone(), text: text.clone() });
    match host.respond(Command::GetBuildErrors) {
        Response::BuildErrors(errors) => {
            assert_eq!(errors.len(), 1);
            assert_eq!(errors[0].0, "/post/hello");
            assert_eq!(errors[0].1, vec!["no template for post".to_string()]);
        }
        other => panic!("expected BuildErrors, got {other:?}"),
    }

    host.files.insert(full("templates/post/item.html"), POST_TEMPLATE_SRC.to_string());
    host.handle(Command::DocumentChanged { path, text });
    match host.respond(Command::GetBuildErrors) {
        Response::BuildErrors(errors) => assert!(errors.is_empty(), "{errors:?}"),
        other => panic!("expected BuildErrors, got {other:?}"),
    }
}

#[test]
fn document_changed_updates_in_memory_source() {
    let mut host = smoke_site();
    let path = full("content/post/hello.md");
    let new_text = "title: Changed\n---\nNew body\n".to_string();

    host.handle(Command::DocumentChanged { path: path.clone(), text: new_text.clone() });
    match host.respond(Command::GetDocumentText { path }) {
        Response::DocumentText(Some(text)) => assert_eq!(
            text, new_text,
            "in-memory document text should match what was sent via DocumentChanged"
        ),
        other => panic!("expected DocumentText(Some(_)), got {other:?}"),
    }
}

#[test]
fn document_text_is_found_by_its_path_in_the_site() {
    let mut host = smoke_site();
    let relative = Command::GetDocumentText { path: "content/post/hello.md".to_string() };
    match host.respond(relative) {
        Response::DocumentText(Some(text)) => {
            assert_eq!(text, "title: Hello World\n---\nBody text here\n")
        }
        other => panic!("expected DocumentText(Some(_)), got {other:?}"),
    }
}

// ── Edits ────────────────────────────────────────────────────────────────────

#[test]
fn edit_slot_modifies_file_and_emits_pages_rebuilt() {
    let mut host = article_conductor_with_file();
    let file = "content/article/test.md";
    host.handle(Command::EditSlot {
        file: file.to_string(),
        slot: "title".to_string(),
        value: "New Title".to_string(),
    });

    let disk = &host.files[&full(file)];
    assert!(disk.contains("Old Title"), "disk file should still have old title: {disk}");
    assert_eq!(
        slot_text(&host, file, "title").as_deref(),
        Some("New Title"),
        "the slot 'title' in the store should be updated to 'New Title'"
    );
    assert!(is_dirty(&host, file), "dirty_docs should contain the modified path after EditSlot");
}

#[test]
fn edit_slot_tells_the_rebuilt_page() {
    let mut host = article_conductor_with_file();
    host.files.insert(full("templates/article/item.html"), "<html></html>".to_string());
    let result = host.handle(Command::EditSlot {
        file: "content/article/test.md".to_string(),
        slot: "title".to_string(),
        value: "New Title".to_string(),
    });
    assert!(matches!(result.response, Response::Done));
    assert_eq!(
        result.events,
        vec![ConductorEvent::PagesRebuilt {
            pages: vec!["/article/test".to_string()],
            anchor: None,
        }]
    );
}

#[test]
fn edit_slot_of_an_unknown_file_is_an_error() {
    let mut host = article_conductor_with_file();
    let response = host.respond(Command::EditSlot {
        file: "content/article/none.md".to_string(),
        slot: "title".to_string(),
        value: "New Title".to_string(),
    });
    assert_eq!(
        response,
        Response::Error("no document in store for content/article/none.md".to_string())
    );
}

#[test]
fn apply_slot_edit_multi_paragraph_slot_returns_error() {
    let mut host = multi_paragraph_conductor();
    let response = host.respond(Command::EditSlot {
        file: "content/article/multi.md".to_string(),
        slot: "summary".to_string(),
        value: "X".to_string(),
    });
    match &response {
        Response::Error(msg) => {
            assert!(msg.contains("multi-element"), "expected 'multi-element' in: {msg}")
        }
        other => panic!("expected Response::Error for multi-element slot, got {other:?}"),
    }
    assert!(!is_dirty(&host, "content/article/multi.md"));
}

#[test]
fn apply_slot_edit_missing_slot_returns_error() {
    let mut host = article_conductor_with_file();
    let response = host.respond(Command::EditSlot {
        file: "content/article/test.md".to_string(),
        slot: "nonexistent_slot_xyz".to_string(),
        value: "anything".to_string(),
    });
    match &response {
        Response::Error(msg) => {
            assert!(msg.contains("not present"), "expected 'not present' in: {msg}")
        }
        other => panic!("expected Response::Error for missing slot, got {other:?}"),
    }
}

fn body_site(file: &'static str, text: &'static str) -> Host {
    Host::new(
        &[item("article", POST_SCHEMA_SRC, post_grammar)],
        &[(file, text), ("templates/article/item.html", "<html></html>")],
    )
}

#[test]
fn edit_body_element_replaces_span() {
    let file = "content/article/edit-test.md";
    let mut host =
        body_site(file, "# My Title\n\n----\n\nOld body paragraph.\n\nSecond paragraph.\n");
    let result = host.handle(Command::EditBodyElement {
        file: file.to_string(),
        body_idx: 0,
        content: "New body paragraph.".to_string(),
    });

    assert!(matches!(result.response, Response::Done), "expected Done, got {:?}", result.response);
    assert_eq!(result.events.len(), 1, "expected one PagesRebuilt event");
    match &result.events[0] {
        ConductorEvent::PagesRebuilt { pages, anchor } => {
            assert_eq!(pages, &vec!["/article/edit-test".to_string()]);
            assert_eq!(anchor.as_deref(), Some("presemble-body-0"));
        }
        other => panic!("expected PagesRebuilt, got {other:?}"),
    }

    assert!(host.files[&full(file)].contains("Old body paragraph."));
    let store = &host.conductor.store;
    let body = find_child_by_name(store, root_of(&host, file).unwrap(), "body").unwrap();
    let texts: Vec<String> = store
        .children(body)
        .into_iter()
        .flat_map(|e| store.children(e))
        .filter_map(|t| store.text_of(t))
        .collect();
    assert!(texts.iter().any(|t| t.contains("New body paragraph.")), "{texts:?}");
    assert!(texts.iter().any(|t| t.contains("Second paragraph.")), "{texts:?}");
    assert!(is_dirty(&host, file));
}

#[test]
fn edit_body_element_out_of_range_returns_error() {
    let file = "content/article/range-test.md";
    let text = "# My Title\n\n----\n\nOnly paragraph.\n";
    let mut host = body_site(file, text);
    let response = host.respond(Command::EditBodyElement {
        file: file.to_string(),
        body_idx: 5,
        content: "Replacement".to_string(),
    });
    assert_eq!(
        response,
        Response::Error("body index 5 out of range (have 1 elements)".to_string())
    );
    assert_eq!(host.files[&full(file)], text, "file should not be modified on error");
}

// ── The cursor ───────────────────────────────────────────────────────────────

#[test]
fn cursor_moved_no_document_returns_ok_no_events() {
    let mut host = minimal_post_conductor();
    let result = host.handle(Command::CursorMoved {
        path: "content/post/nonexistent.md".to_string(),
        line: 0,
    });
    assert!(matches!(result.response, Response::Done));
    assert!(result.events.is_empty());
}

#[test]
fn cursor_moved_in_body_emits_cursor_scroll_to() {
    let mut host = minimal_post_conductor();
    host.handle(Command::DocumentChanged {
        path: "/test-site/content/post/my-post.md".to_string(),
        text: "# My Post Title\n\n----\n\nFirst paragraph.\n\nSecond paragraph.\n".to_string(),
    });

    let result = host.handle(Command::CursorMoved {
        path: "content/post/my-post.md".to_string(),
        line: 4,
    });
    assert!(matches!(result.response, Response::Done));
    assert_eq!(result.events.len(), 1, "expected one CursorScrollTo event");
    match &result.events[0] {
        ConductorEvent::CursorScrollTo { anchor } => assert_eq!(anchor, "presemble-body-0"),
        other => panic!("expected CursorScrollTo, got {other:?}"),
    }

    let second = host.handle(Command::CursorMoved {
        path: "content/post/my-post.md".to_string(),
        line: 6,
    });
    assert_eq!(
        second.events,
        vec![ConductorEvent::CursorScrollTo { anchor: "presemble-body-1".to_string() }]
    );
}

#[test]
fn cursor_moved_in_preamble_falls_through_to_body() {
    let mut host = minimal_post_conductor();
    host.handle(Command::DocumentChanged {
        path: "/test-site/content/post/my-post.md".to_string(),
        text: "# My Post Title\n\n----\n\nSome body.\n".to_string(),
    });
    let result = host.handle(Command::CursorMoved {
        path: "content/post/my-post.md".to_string(),
        line: 0,
    });
    assert!(matches!(result.response, Response::Done));
    if !result.events.is_empty() {
        match &result.events[0] {
            ConductorEvent::CursorScrollTo { anchor } => assert!(
                anchor.starts_with("presemble-body-"),
                "expected presemble-body-* anchor, got: {anchor}"
            ),
            other => panic!("expected CursorScrollTo, got {other:?}"),
        }
    }
}

// ── Suggestions ──────────────────────────────────────────────────────────────

fn suggest_title(host: &mut Host, value: &str, author: Author) -> CommandResult {
    host.handle(Command::SuggestSlotValue {
        file: ContentPath::new("content/article/test.md"),
        slot: SlotName::new("title"),
        value: value.to_string(),
        reason: "More descriptive".to_string(),
        author,
    })
}

fn created(response: Response) -> SuggestionId {
    match response {
        Response::SuggestionCreated(id) => id,
        other => panic!("expected SuggestionCreated, got {other:?}"),
    }
}

fn pending(host: &mut Host, file: &str) -> Vec<presemble::editorial::Suggestion> {
    match host.respond(Command::GetSuggestions { file: ContentPath::new(file) }) {
        Response::Suggestions(list) => list,
        other => panic!("expected Suggestions, got {other:?}"),
    }
}

#[test]
fn suggest_slot_value_creates_pending_suggestion() {
    let mut host = article_conductor_with_file();
    let file = ContentPath::new("content/article/test.md");
    let slot = SlotName::new("title");
    let result = suggest_title(&mut host, "A Better Title", Author::Claude);
    let id = created(result.response);

    assert_eq!(result.events.len(), 1, "expected one event");
    match &result.events[0] {
        ConductorEvent::SuggestionCreated { suggestion } => {
            assert_eq!(suggestion.id, id);
            assert_eq!(suggestion.file, file);
            assert!(
                matches!(&suggestion.target, SuggestionTarget::Slot { slot: s, proposed_value } if s == &slot && proposed_value == "A Better Title"),
                "expected Slot target with correct slot and value"
            );
            assert_eq!(suggestion.status, SuggestionStatus::Pending);
            assert_eq!(suggestion.created_at, "1700000000");
            assert_eq!(suggestion.original_value.as_deref(), Some("Old Title"));
        }
        other => panic!("expected SuggestionCreated event, got {other:?}"),
    }

    let list = pending(&mut host, "content/article/test.md");
    assert_eq!(list.len(), 1);
    assert_eq!(list[0].id, id);
    assert!(
        matches!(&list[0].target, SuggestionTarget::Slot { proposed_value, .. } if proposed_value == "A Better Title"),
        "expected Slot target with proposed value"
    );
}

#[test]
fn accept_suggestion_marks_status_without_writing_to_disk() {
    let mut host = article_conductor_with_file();
    let before = host.files.clone();
    let result = suggest_title(&mut host, "Accepted Title", Author::Human("Alice".to_string()));
    let id = created(result.response);

    let accepted = host.handle(Command::AcceptSuggestion { id: id.clone() });
    assert!(matches!(accepted.response, Response::Done), "got {:?}", accepted.response);
    assert_eq!(host.files, before, "conductor should not write to disk on accept");
    assert!(
        accepted.events.iter().any(|e| matches!(
            e,
            ConductorEvent::SuggestionAccepted { id: eid, .. } if eid == &id
        )),
        "expected SuggestionAccepted event"
    );
    assert!(
        pending(&mut host, "content/article/test.md").is_empty(),
        "accepted suggestion should not appear in pending list"
    );
}

#[test]
fn reject_suggestion_marks_rejected_without_edit() {
    let mut host = article_conductor_with_file();
    let before = host.files.clone();
    let result = suggest_title(&mut host, "Rejected Title", Author::Claude);
    let id = created(result.response);

    let rejected = host.handle(Command::RejectSuggestion { id: id.clone() });
    assert!(matches!(rejected.response, Response::Done), "got {:?}", rejected.response);
    assert_eq!(host.files, before, "file should not be modified after rejection");
    assert!(
        rejected.events.iter().any(|e| matches!(
            e,
            ConductorEvent::SuggestionRejected { id: eid, .. } if eid == &id
        )),
        "expected SuggestionRejected event"
    );
    assert!(
        pending(&mut host, "content/article/test.md").is_empty(),
        "rejected suggestion should not appear in pending list"
    );
}

#[test]
fn a_decided_suggestion_is_not_decided_again() {
    let mut host = article_conductor_with_file();
    let id = created(suggest_title(&mut host, "Once", Author::Claude).response);
    host.handle(Command::RejectSuggestion { id: id.clone() });
    assert_eq!(
        host.respond(Command::AcceptSuggestion { id: id.clone() }),
        Response::Error("suggestion s-1 is not pending".to_string())
    );
    assert_eq!(
        host.respond(Command::RejectSuggestion { id }),
        Response::Error("suggestion s-1 is not pending".to_string())
    );
    assert_eq!(
        host.respond(Command::AcceptSuggestion { id: SuggestionId("x".to_string()) }),
        Response::Error("suggestion not found: x".to_string())
    );
}

#[test]
fn a_suggestion_that_cannot_be_kept_is_not_listed() {
    let mut host = article_conductor_with_file();
    let step = host.conductor.handle_command(Command::SuggestBodyEdit {
        file: ContentPath::new("content/article/test.md"),
        search: "Some".to_string(),
        replace: "Any".to_string(),
        reason: "r".to_string(),
        author: Author::Claude,
    });
    let Step::ReadFile { path, next } = step else { panic!("expected a file to be read") };
    assert_eq!(path, "/test-site/content/article/test.md");
    let step = host.conductor.on_text(next, host.files.get(&path).cloned());
    let Step::Stamp(task) = step else { panic!("expected a stamp") };
    let Step::Persist(task) = on_stamp(task, SuggestionId("id".to_string()), 7) else {
        panic!("expected the suggestion to be kept")
    };
    let step = host.conductor.on_persisted(task, Err("write: disk full".to_string()));
    let Step::Done(result) = step else { panic!("expected a result") };
    assert_eq!(result.response, Response::Error("persist error: write: disk full".to_string()));
    assert!(pending(&mut host, "content/article/test.md").is_empty());
}

#[test]
fn suggest_body_edit_creates_pending_suggestion() {
    let mut host = article_conductor_with_file();
    let file = ContentPath::new("content/article/test.md");
    let result = host.handle(Command::SuggestBodyEdit {
        file: file.clone(),
        search: "Some summary text.".to_string(),
        replace: "Some improved summary text.".to_string(),
        reason: "More precise wording".to_string(),
        author: Author::Claude,
    });
    let id = created(result.response);

    assert_eq!(result.events.len(), 1, "expected one event");
    match &result.events[0] {
        ConductorEvent::SuggestionCreated { suggestion } => {
            assert_eq!(suggestion.id, id);
            assert_eq!(suggestion.file, file);
            assert!(
                matches!(&suggestion.target, SuggestionTarget::BodyText { search, replace }
                    if search == "Some summary text." && replace == "Some improved summary text."),
                "expected BodyText target with correct search and replace"
            );
            assert_eq!(suggestion.status, SuggestionStatus::Pending);
        }
        other => panic!("expected SuggestionCreated event, got {other:?}"),
    }
}

#[test]
fn suggest_body_edit_fails_when_search_not_found() {
    let mut host = article_conductor_with_file();
    let response = host.respond(Command::SuggestBodyEdit {
        file: ContentPath::new("content/article/test.md"),
        search: "text that does not exist in the document".to_string(),
        replace: "replacement".to_string(),
        reason: "test".to_string(),
        author: Author::Claude,
    });
    assert_eq!(
        response,
        Response::Error(
            "search text not found in content/article/test.md: \
             \"text that does not exist in the document\""
                .to_string()
        )
    );
}

#[test]
fn suggest_body_edit_fails_when_the_file_is_missing() {
    let mut host = article_conductor_with_file();
    let response = host.respond(Command::SuggestBodyEdit {
        file: ContentPath::new("content/article/none.md"),
        search: "a".to_string(),
        replace: "b".to_string(),
        reason: "test".to_string(),
        author: Author::Claude,
    });
    assert_eq!(response, Response::Error("cannot read content/article/none.md".to_string()));
}

#[test]
fn accept_body_suggestion_applies_text_replacement() {
    let mut host = article_conductor_with_file();
    let result = host.handle(Command::SuggestBodyEdit {
        file: ContentPath::new("content/article/test.md"),
        search: "Some summary text.".to_string(),
        replace: "Some improved text.".to_string(),
        reason: "Better".to_string(),
        author: Author::Claude,
    });
    let id = created(result.response);

    let before = host.files.clone();
    let accepted = host.handle(Command::AcceptSuggestion { id: id.clone() });
    assert!(matches!(accepted.response, Response::Done), "got {:?}", accepted.response);
    assert_eq!(host.files, before, "conductor should not write to disk on accept");
    assert!(
        accepted.events.iter().any(|e| matches!(
            e,
            ConductorEvent::SuggestionAccepted { id: eid, .. } if eid == &id
        )),
        "expected SuggestionAccepted event"
    );
}

fn suggest_edit(host: &mut Host, slot: &str, search: &str, replace: &str) -> CommandResult {
    host.handle(Command::SuggestSlotEdit {
        file: ContentPath::new("content/article/test.md"),
        slot: SlotName::new(slot),
        search: search.to_string(),
        replace: replace.to_string(),
        reason: "Better".to_string(),
        author: Author::Claude,
    })
}

#[test]
fn suggest_slot_edit_creates_pending_suggestion() {
    let mut host = article_conductor_with_file();
    let result = suggest_edit(&mut host, "title", "Old", "New");
    let id = created(result.response);
    assert!(
        result.events.iter().any(|e| matches!(
            e,
            ConductorEvent::SuggestionCreated { suggestion } if suggestion.id == id
        )),
        "expected SuggestionCreated event"
    );
    let list = pending(&mut host, "content/article/test.md");
    assert_eq!(list.len(), 1);
    assert!(matches!(
        &list[0].target,
        SuggestionTarget::SlotEdit { slot, search, replace }
            if slot.as_str() == "title" && search == "Old" && replace == "New"
    ));
}

#[test]
fn suggest_slot_value_captures_list_original_value() {
    let mut host = multi_paragraph_conductor();
    let result = host.handle(Command::SuggestSlotValue {
        file: ContentPath::new("content/article/multi.md"),
        slot: SlotName::new("summary"),
        value: "A single improved summary.".to_string(),
        reason: "Consolidate paragraphs".to_string(),
        author: Author::Claude,
    });
    let id = created(result.response);
    let list = pending(&mut host, "content/article/multi.md");
    assert_eq!(list.len(), 1);
    assert_eq!(list[0].id, id);
    assert_eq!(
        list[0].original_value.as_deref(),
        Some("First summary paragraph.\n\nSecond summary paragraph.")
    );
}

#[test]
fn suggest_slot_edit_fails_when_search_not_in_slot() {
    let mut host = article_conductor_with_file();
    let result =
        suggest_edit(&mut host, "title", "text that does not exist in the title", "replacement");
    assert_eq!(
        result.response,
        Response::Error(
            "search text not found in slot 'title' of content/article/test.md: \
             \"text that does not exist in the title\""
                .to_string()
        )
    );
}

#[test]
fn suggest_slot_edit_fails_when_slot_is_unreadable() {
    let mut host = article_conductor_with_file();
    let result = suggest_edit(&mut host, "nonexistent_slot", "anything", "replacement");
    assert_eq!(
        result.response,
        Response::Error(
            "cannot read slot 'nonexistent_slot' from content/article/test.md".to_string()
        )
    );
}

#[test]
fn accept_slot_edit_suggestion_applies_search_replace_to_slot() {
    let mut host = article_conductor_with_file();
    let file = "content/article/test.md";
    let id = created(suggest_edit(&mut host, "title", "Old", "New").response);

    let accepted = host.handle(Command::AcceptSuggestion { id: id.clone() });
    assert!(matches!(accepted.response, Response::Done), "got {:?}", accepted.response);
    assert!(host.files[&full(file)].contains("Old Title"));
    assert_eq!(
        slot_text(&host, file, "title").as_deref(),
        Some("New Title"),
        "the slot 'title' in the store should be 'New Title' after AcceptSuggestion"
    );
    assert!(
        accepted.events.iter().any(|e| matches!(
            e,
            ConductorEvent::SuggestionAccepted { id: eid, .. } if eid == &id
        )),
        "expected SuggestionAccepted event"
    );
    assert!(
        pending(&mut host, file).is_empty(),
        "accepted suggestion should not appear in pending list"
    );
}

#[test]
fn accept_slot_edit_fails_when_the_text_has_changed() {
    let mut host = article_conductor_with_file();
    let id = created(suggest_edit(&mut host, "title", "Old", "New").response);
    host.files.insert(full("content/article/test.md"), "# Other\n\nSome text.\n".to_string());
    assert_eq!(
        host.respond(Command::AcceptSuggestion { id }),
        Response::Error(
            "search text not found in current slot 'title' of content/article/test.md \
             — content may have changed"
                .to_string()
        )
    );
    assert_eq!(pending(&mut host, "content/article/test.md").len(), 1);
}

#[test]
fn suggestion_files_are_sorted_and_listed_once() {
    let mut host = article_conductor_with_file();
    host.files.insert(full("content/article/a.md"), "# A\n\nSome text.\n".to_string());
    for file in ["content/article/test.md", "content/article/a.md", "content/article/test.md"] {
        let response = host.respond(Command::SuggestBodyEdit {
            file: ContentPath::new(file),
            search: "Some".to_string(),
            replace: "Any".to_string(),
            reason: "r".to_string(),
            author: Author::Claude,
        });
        created(response);
    }
    assert_eq!(
        host.respond(Command::GetSuggestionFiles),
        Response::SuggestionFiles(vec![
            "content/article/a.md".to_string(),
            "content/article/test.md".to_string(),
        ])
    );
}

#[test]
fn only_pending_suggestions_are_loaded() {
    let mut host = article_conductor_with_file();
    created(suggest_title(&mut host, "First", Author::Claude).response);
    let second = created(suggest_title(&mut host, "Second", Author::Claude).response);
    let mut list = pending(&mut host, "content/article/test.md");
    for s in list.iter_mut() {
        if s.id == second {
            s.status = SuggestionStatus::Rejected;
        }
    }
    let mut other = article_conductor_with_file();
    other.conductor.load_suggestions(list);
    let loaded = pending(&mut other, "content/article/test.md");
    assert_eq!(loaded.len(), 1);
    assert_eq!(loaded[0].id, SuggestionId("s-1".to_string()));
}

#[test]
fn suggestions_are_kept_below_the_site() {
    let mut host = article_conductor_with_file();
    created(suggest_title(&mut host, "First", Author::Claude).response);
    let kept: Vec<&String> = host.kept.keys().collect();
    assert_eq!(kept, vec!["/test-site/.presemble/suggestions/s-1.json"]);
}

fn smoke_site() -> Host {
    Host::new(
        &[item("post", ITEM_SCHEMA_SRC, title_grammar)],
        &[
            ("schemas/post/item.md", ITEM_SCHEMA_SRC),
            ("templates/post/item.hiccup", "[:div [:h1 title]]"),
            ("content/post/hello.md", "title: Hello World\n---\nBody text here\n"),
        ],
    )
}

#[test]
fn suggestion_round_trip() {
    let mut host = smoke_site();
    let file = ContentPath::new("content/post/hello.md");
    let response = host.respond(Command::SuggestSlotValue {
        file: file.clone(),
        slot: SlotName::new("title"),
        value: "A Better Title".to_string(),
        reason: "More descriptive".to_string(),
        author: Author::Human("tester".to_string()),
    });
    assert!(matches!(response, Response::SuggestionCreated(_)), "got {response:?}");
    let list = pending(&mut host, "content/post/hello.md");
    assert_eq!(list.len(), 1, "expected exactly 1 pending suggestion, got {}", list.len());
    assert_eq!(list[0].file, file);
    assert!(
        matches!(
            &list[0].target,
            SuggestionTarget::Slot { proposed_value, .. } if proposed_value == "A Better Title"
        ),
        "suggestion target should have proposed_value 'A Better Title'"
    );
}

#[test]
fn suggest_slot_edit_round_trip() {
    let mut host = smoke_site();
    let file = ContentPath::new("content/post/hello.md");
    let response = host.respond(Command::SuggestSlotEdit {
        file: file.clone(),
        slot: SlotName::new("title"),
        search: "Hello World".to_string(),
        replace: "Hello Universe".to_string(),
        author: Author::Human("test".to_string()),
        reason: "testing slot edit".to_string(),
    });
    assert!(matches!(response, Response::SuggestionCreated(_)), "got {response:?}");
    let list = pending(&mut host, "content/post/hello.md");
    assert_eq!(list.len(), 1, "expected exactly 1 pending suggestion, got {}", list.len());
    assert_eq!(list[0].file, file);
    assert!(
        matches!(
            &list[0].target,
            SuggestionTarget::SlotEdit { slot, search, replace }
            if slot.as_str() == "title"
                && search == "Hello World"
                && replace == "Hello Universe"
        ),
        "suggestion target should be SlotEdit with correct slot/search/replace, got {:?}",
        list[0].target
    );
}

// ── The site ─────────────────────────────────────────────────────────────────

#[test]
fn build_full_graph_populates_item_nodes() {
    let host = two_post_conductor();
    let roots = host.conductor.documents_for_stem("post");
    assert_eq!(roots.len(), 2, "there should be 2 documents of stem 'post'");
    assert!(host.conductor.document_by_url("/post/first").is_some());
    assert!(host.conductor.document_by_url("/post/second").is_some());
}

#[test]
fn query_items_for_stem_returns_data_graphs() {
    let host = two_post_conductor();
    let items = host.conductor.query_items_for_stem("post");
    assert_eq!(items.len(), 2, "expected 2 items for stem 'post'");
    let urls: Vec<&str> = items.iter().map(|i| i.url.as_str()).collect();
    assert!(urls.contains(&"/post/first"), "should contain /post/first");
    assert!(urls.contains(&"/post/second"), "should contain /post/second");
    for i in &items {
        let plan = host.conductor.graph_plan(i.root).unwrap();
        assert_eq!(plan.url, i.url);
        assert_eq!(plan.grammar_key, "post");
    }
}

#[test]
fn empty_conductor_has_empty_node_store() {
    let host = empty_conductor();
    let roots = host.conductor.documents_for_stem("post");
    assert!(roots.is_empty(), "empty conductor should have no documents");
}

#[test]
fn classify_content_file_returns_content_classification() {
    let mut host = minimal_post_conductor();
    match host.respond(Command::Classify { path: "content/post/hello.md".to_string() }) {
        Response::FileClassification(FileClassification::Content { schema_stem }) => {
            assert_eq!(schema_stem, "post");
        }
        other => panic!("expected FileClassification(Content), got {other:?}"),
    }
}

#[test]
fn classify_unknown_file_returns_unknown_classification() {
    let mut host = empty_conductor();
    match host.respond(Command::Classify { path: "random/thing.txt".to_string() }) {
        Response::FileClassification(FileClassification::Unknown) => {}
        other => panic!("expected FileClassification(Unknown), got {other:?}"),
    }
}

#[test]
fn classify_schema_file_returns_schema_classification() {
    let mut host = minimal_post_conductor();
    match host.respond(Command::Classify { path: "schemas/post.md".to_string() }) {
        Response::FileClassification(FileClassification::Schema { stem }) => {
            assert_eq!(stem, "post");
        }
        other => panic!("expected FileClassification(Schema), got {other:?}"),
    }
}

#[test]
fn classify_absolute_content_path() {
    let mut host = smoke_site();
    let response = host.respond(Command::Classify { path: full("content/post/hello.md") });
    assert!(
        matches!(
            response,
            Response::FileClassification(FileClassification::Content { ref schema_stem })
            if schema_stem == "post"
        ),
        "expected Content classification with schema_stem=post, got {response:?}"
    );
}

#[test]
fn classify_absolute_template_path() {
    let mut host = smoke_site();
    let response = host.respond(Command::Classify { path: full("templates/post/item.hiccup") });
    assert!(
        matches!(
            response,
            Response::FileClassification(FileClassification::Template { ref schema_stem })
            if schema_stem == "post"
        ),
        "expected Template classification with schema_stem=post, got {response:?}"
    );
}

#[test]
fn classify_absolute_schema_path() {
    let mut host = smoke_site();
    let response = host.respond(Command::Classify { path: full("schemas/post/item.md") });
    assert!(
        matches!(
            response,
            Response::FileClassification(FileClassification::Schema { ref stem })
            if stem == "post"
        ),
        "expected Schema classification with stem=post, got {response:?}"
    );
}

#[test]
fn classify_outside_site_returns_unknown() {
    let mut host = smoke_site();
    let response = host.respond(Command::Classify { path: "/tmp/not-a-site/foo.md".to_string() });
    assert!(
        matches!(response, Response::FileClassification(FileClassification::Unknown)),
        "expected Unknown classification for path outside site, got {response:?}"
    );
}

#[test]
fn get_schema_source_after_construction() {
    let mut host = smoke_site();
    let response = host.respond(Command::GetGrammar { stem: "post".into() });
    assert!(
        matches!(response, Response::SchemaSource(Some(_))),
        "expected SchemaSource(Some(_)) for known stem, got {response:?}"
    );
    assert_eq!(
        host.respond(Command::GetGrammar { stem: "none".into() }),
        Response::SchemaSource(None)
    );
}

#[test]
fn completions_flow_classify_then_schema() {
    let mut host = smoke_site();
    let classified = host.respond(Command::Classify { path: full("content/post/hello.md") });
    let stem = match classified {
        Response::FileClassification(FileClassification::Content { schema_stem }) => schema_stem,
        other => panic!("expected Content classification, got {other:?}"),
    };
    assert_eq!(stem, "post");

    match host.respond(Command::GetGrammar { stem: stem.clone() }) {
        Response::SchemaSource(Some(src)) => assert_eq!(src, ITEM_SCHEMA_SRC),
        other => panic!("expected SchemaSource(Some(_)), got {other:?}"),
    }
    let entry = host.conductor.schemas.get(&stem).unwrap();
    let grammar = entry.grammar.as_ref().unwrap();
    assert!(
        grammar.preamble.iter().any(|slot| slot.name.as_str() == "title"),
        "grammar should have a 'title' slot"
    );
}

#[test]
fn list_schemas_returns_schema_list() {
    let mut host = minimal_post_conductor();
    match host.respond(Command::ListSchemas) {
        Response::SchemaList(schemas) => assert!(
            schemas.iter().any(|(stem, _)| stem == "post"),
            "expected 'post' stem in schema list, got: {schemas:?}"
        ),
        other => panic!("expected SchemaList, got {other:?}"),
    }
}

#[test]
fn list_schemas_returns_empty_for_empty_conductor() {
    let mut host = empty_conductor();
    match host.respond(Command::ListSchemas) {
        Response::SchemaList(schemas) => {
            assert!(schemas.is_empty(), "expected empty schema list for empty conductor");
        }
        other => panic!("expected SchemaList, got {other:?}"),
    }
}

#[test]
fn list_link_options_returns_items_for_stem() {
    let mut host = two_post_conductor();
    match host.respond(Command::ListLinkOptions { stem: "post".to_string() }) {
        Response::LinkOptions(opts) => {
            assert_eq!(opts.len(), 2, "expected 2 link options for 'post' stem");
            let urls: Vec<&str> = opts.iter().map(|o| o.url.as_str()).collect();
            assert!(urls.contains(&"/post/first"), "expected /post/first in options");
            assert!(urls.contains(&"/post/second"), "expected /post/second in options");
            let titles: Vec<&str> = opts.iter().map(|o| o.title.as_str()).collect();
            assert!(titles.contains(&"First Post"), "{titles:?}");
        }
        other => panic!("expected LinkOptions, got {other:?}"),
    }
}

#[test]
fn list_link_options_returns_empty_for_unknown_stem() {
    let mut host = empty_conductor();
    match host.respond(Command::ListLinkOptions { stem: "nonexistent".to_string() }) {
        Response::LinkOptions(opts) => {
            assert!(opts.is_empty(), "expected empty options for unknown stem");
        }
        other => panic!("expected LinkOptions, got {other:?}"),
    }
}

#[test]
fn resolve_link_target_stem_follows_the_pattern_of_the_slot() {
    fn linking() -> Grammar {
        let pattern = "/author/<name>".to_string();
        Grammar {
            preamble: vec![
                title_slot("title"),
                slot("author", Element::Link { pattern }, CountRange::Exactly(1)),
            ],
            body: None,
        }
    }
    let mut host = Host::new(&[item("post", "schema", linking)], &[]);
    let ask = |slot: &str| Command::ResolveLinkTargetStem {
        source_stem: "post".to_string(),
        slot: slot.to_string(),
    };
    assert_eq!(
        host.respond(ask("author")),
        Response::LinkTargetStem(Some("author".to_string()))
    );
    assert_eq!(host.respond(ask("title")), Response::LinkTargetStem(None));
    assert_eq!(host.respond(ask("none")), Response::LinkTargetStem(None));
}

#[test]
fn resolve_link_returns_false_for_nonexistent_path() {
    let mut host = empty_conductor();
    let path = "/nonexistent/path/that/does/not/exist.md".to_string();
    match host.respond(Command::ResolveLink { path }) {
        Response::Exists(false) => {}
        other => panic!("expected Exists(false), got {other:?}"),
    }
}

#[test]
fn resolve_template_returns_false_for_missing_stem() {
    let mut host = empty_conductor();
    match host.respond(Command::ResolveTemplate { stem: "nonexistent_stem_xyz".to_string() }) {
        Response::Exists(false) => {}
        other => panic!("expected Exists(false), got {other:?}"),
    }
}

#[test]
fn resolve_template_returns_true_when_template_exists() {
    let mut host = Host::new(&[], &[("templates/post/item.html", "<html></html>")]);
    match host.respond(Command::ResolveTemplate { stem: "post".to_string() }) {
        Response::Exists(true) => {}
        other => panic!("expected Exists(true), got {other:?}"),
    }
}

#[test]
fn list_dependents_returns_files_for_known_stem() {
    let mut host = two_post_conductor();
    match host.respond(Command::ListDependents { stem: "post".to_string() }) {
        Response::Dependents(deps) => {
            assert!(!deps.is_empty(), "expected dependents for 'post' stem");
            let has_schema = deps.iter().any(
                |d| matches!(&d.kind, FileClassification::Schema { stem } if stem == "post"),
            );
            let has_content = deps.iter().any(|d| {
                matches!(&d.kind, FileClassification::Content { schema_stem } if schema_stem == "post")
            });
            assert!(has_schema, "expected schema file in dependents");
            assert!(has_content, "expected content files in dependents");
        }
        other => panic!("expected Dependents, got {other:?}"),
    }
}

#[test]
fn list_dependents_returns_empty_for_unknown_stem() {
    let mut host = empty_conductor();
    match host.respond(Command::ListDependents { stem: "nonexistent".to_string() }) {
        Response::Dependents(deps) => {
            assert!(deps.is_empty(), "expected empty dependents for unknown stem");
        }
        other => panic!("expected Dependents, got {other:?}"),
    }
}

#[test]
fn list_content_returns_paths_for_site_with_content() {
    let mut host = two_post_conductor();
    match host.respond(Command::ListContent) {
        Response::ContentList(paths) => {
            assert_eq!(paths.len(), 2, "expected 2 content files for two-post site");
            assert!(paths.iter().any(|p| p.ends_with("first.md")));
            assert!(paths.iter().any(|p| p.ends_with("second.md")));
            assert_eq!(paths[0], "content/post/first.md");
        }
        other => panic!("expected ContentList, got {other:?}"),
    }
}

#[test]
fn list_content_returns_empty_for_empty_conductor() {
    let mut host = empty_conductor();
    match host.respond(Command::ListContent) {
        Response::ContentList(paths) => {
            assert!(paths.is_empty(), "expected empty content list for empty conductor");
        }
        other => panic!("expected ContentList, got {other:?}"),
    }
}

#[test]
fn content_files_are_listed_once_and_outside_paths_as_they_are() {
    let host = empty_conductor();
    let files = vec![
        "/test-site/content/b.md".to_string(),
        "/other/c.md".to_string(),
        "/test-site/content/a.md".to_string(),
        "/test-site//content/b.md".to_string(),
    ];
    match host.conductor.on_content_files(&files) {
        Step::Done(result) => assert_eq!(
            result.response,
            Response::ContentList(vec![
                "/other/c.md".to_string(),
                "content/a.md".to_string(),
                "content/b.md".to_string(),
            ])
        ),
        other => panic!("expected a result, got {other:?}"),
    }
}

#[test]
fn doc_root_for_path_returns_some_for_known_file() {
    let host = two_post_conductor();
    let id = root_of(&host, "content/post/first.md");
    assert!(id.is_some(), "expected Some NodeId for content/post/first.md, got None");
}

#[test]
fn doc_root_for_path_returns_none_for_unknown_file() {
    let host = two_post_conductor();
    let id = root_of(&host, "content/post/nonexistent.md");
    assert!(id.is_none(), "expected None for nonexistent path, got {id:?}");
}

#[test]
fn doc_root_for_path_agrees_with_document_by_url() {
    let host = two_post_conductor();
    let by_path = root_of(&host, "content/post/first.md").unwrap();
    let by_url = host.conductor.document_by_url("/post/first").unwrap();
    assert_eq!(by_path, by_url, "path and URL should lead to the same node");
}

#[test]
fn rebuild_page_from_store_returns_url_for_known_document() {
    let mut host = two_post_conductor();
    let program = r#"(ned/doc-by-path "content/post/first.md")"#.to_string();
    match host.respond(Command::ApplyNedProgram { program }) {
        Response::Applied { rebuilt_pages, .. } => {
            assert!(rebuilt_pages.contains(&"/post/first".to_string()), "{rebuilt_pages:?}");
        }
        other => panic!("expected Applied, got {other:?}"),
    }
}

#[test]
fn rebuild_pages_for_modified_nodes_rebuilds_both_posts() {
    let host = two_post_conductor();
    let paths =
        vec![SitePath::new("content/post/first.md"), SitePath::new("content/post/second.md")];
    let (plans, jobs) = host.conductor.plan_pages(&paths);
    let outcomes: Vec<RenderOutcome> = jobs.iter().map(|j| host.render(j)).collect();
    let (rebuilt, failed) = presemble::rebuild::settle_plans(&plans, &outcomes);
    assert!(rebuilt.contains(&"/post/first".to_string()), "{rebuilt:?}");
    assert!(rebuilt.contains(&"/post/second".to_string()), "{rebuilt:?}");
    assert!(failed.is_empty(), "expected no failures, got: {failed:?}");
}

#[test]
fn rebuild_pages_for_modified_nodes_skips_unknown_path() {
    let host = two_post_conductor();
    let (plans, jobs) =
        host.conductor.plan_pages(&vec![SitePath::new("content/post/nonexistent.md")]);
    let outcomes: Vec<RenderOutcome> = jobs.iter().map(|j| host.render(j)).collect();
    let (rebuilt, failed) = presemble::rebuild::settle_plans(&plans, &outcomes);
    assert!(rebuilt.is_empty(), "unknown path should be skipped, rebuilt: {rebuilt:?}");
    assert!(failed.is_empty(), "unknown path should not appear in failed: {failed:?}");
}

// ── Links between pages ──────────────────────────────────────────────────────

fn conductor_with_body(source_url: &str, body: ContentElement) -> Host {
    let mut host = empty_conductor();
    let name = source_url.rsplit('/').next().unwrap_or("x");
    let document = Document {
        preamble: im::Vector::new(),
        body: im::Vector::unit(spanned(body)),
        has_separator: false,
        separator_span: None,
    };
    let meta = DocumentMeta {
        url: source_url.to_string(),
        stem: "post".to_string(),
        file: format!("content/post/{name}.md"),
        page_kind: "item".to_string(),
    };
    let root = document_to_store(&document, &mut host.conductor.store, &meta);
    host.conductor.insert_url_root(source_url, root);
    host
}

fn conductor_with_link(source_url: &str, target_url: &str) -> Host {
    conductor_with_body(
        source_url,
        ContentElement::LinkExpression {
            text: LinkText::Empty,
            target: LinkTarget::PathRef(target_url.to_string()),
        },
    )
}

#[test]
fn query_edges_to_finds_path_ref_link_expressions() {
    let host = conductor_with_link("/post/alpha", "/author/alice");
    let edges = host.conductor.query_edges_to("/author/alice");
    assert_eq!(edges.len(), 1, "expected 1 edge to /author/alice, got {}", edges.len());
    assert_eq!(edges[0].source, "/post/alpha");
    assert_eq!(edges[0].target, "/author/alice");
}

#[test]
fn query_edges_from_finds_path_ref_link_expressions() {
    let host = conductor_with_link("/post/alpha", "/author/alice");
    let edges = host.conductor.query_edges_from("/post/alpha");
    assert_eq!(edges.len(), 1, "expected 1 edge from /post/alpha, got {}", edges.len());
    assert_eq!(edges[0].source, "/post/alpha");
    assert_eq!(edges[0].target, "/author/alice");
}

#[test]
fn query_edges_to_no_false_positives_for_documents_without_links() {
    let text = "No links here.".to_string();
    let host = conductor_with_body("/post/beta", ContentElement::Paragraph { text });
    let edges = host.conductor.query_edges_to("/any/target");
    assert!(edges.is_empty(), "documents without link-expressions should not produce edges");
}

// ── Collections ──────────────────────────────────────────────────────────────

const COLLECTION_SCHEMA_SRC: &str = "# Heading {#heading}\noccurs\n: exactly once\n";

fn site_with_collection() -> Host {
    Host::new(
        &[
            item("post", ITEM_SCHEMA_SRC, title_grammar),
            collection("post", COLLECTION_SCHEMA_SRC, heading_grammar),
        ],
        &[
            ("templates/post/item.hiccup", "[:div]"),
            ("content/post/hello.md", "title: Hello\n"),
            ("templates/post/index.hiccup", "[:div]"),
            ("content/post/index.md", "heading: Posts\n"),
        ],
    )
}

fn page_kind(host: &Host, url: &str) -> Option<String> {
    let root = host.conductor.document_by_url(url)?;
    find_attr_text(&host.conductor.store, root, "page-kind")
}

#[test]
fn collection_page_in_graph() {
    let host = site_with_collection();
    assert_eq!(
        page_kind(&host, "/post/").as_deref(),
        Some("collection"),
        "node at /post/ should have page-kind=collection"
    );
}

fn root_collection_site() -> Host {
    Host::new(
        &[collection("", COLLECTION_SCHEMA_SRC, heading_grammar)],
        &[("templates/index.hiccup", "[:div]"), ("content/index.md", "heading: Home\n")],
    )
}

#[test]
fn root_collection_page_in_graph() {
    let host = root_collection_site();
    assert_eq!(
        page_kind(&host, "/").as_deref(),
        Some("collection"),
        "node at / should have page-kind=collection"
    );
}

fn legacy_fallback_site() -> Host {
    Host::new(
        &[item("post", ITEM_SCHEMA_SRC, title_grammar)],
        &[("content/post/hello.md", "title: Hello\n"), ("templates/index.hiccup", "[:div]")],
    )
}

#[test]
fn legacy_fallback_root_page() {
    let host = legacy_fallback_site();
    let roots = host.conductor.documents_for_stem("post");
    assert!(!roots.is_empty(), "expected post content to be indexed");
}

#[test]
fn a_root_template_alone_makes_a_root_page() {
    let host = legacy_fallback_site();
    let root = host.conductor.document_by_url("/").expect("there should be a root page");
    let store = &host.conductor.store;
    assert_eq!(find_attr_text(store, root, "stem").as_deref(), Some(""));
    assert_eq!(find_attr_text(store, root, "file").as_deref(), Some(""));
    let plan = host.conductor.graph_plan(root).unwrap();
    assert_eq!(plan.url, "/");
}

#[test]
fn collection_deps_include_item_content() {
    let host = site_with_collection();
    assert!(host.conductor.document_by_url("/post/").is_some(), "expected /post/");
    assert!(host.conductor.document_by_url("/post/hello").is_some(), "expected /post/hello");
    let roots = host.conductor.documents_for_stem("post");
    assert_eq!(
        roots.len(),
        2,
        "expected 2 documents for stem 'post' (item + collection), got {}",
        roots.len()
    );
}

// ── Indexes ──────────────────────────────────────────────────────────────────

fn site_with_two_posts() -> Host {
    Host::new(
        &[item("post", ITEM_SCHEMA_SRC, title_grammar)],
        &[
            ("templates/post/item.hiccup", "[:div [:h1 title]]"),
            ("content/post/hello.md", "# Hello World\n\n----\n\nBody text here\n"),
            ("content/post/second.md", "# Second Post\n\n----\n\nMore body text\n"),
        ],
    )
}

#[test]
fn document_by_url_finds_item() {
    let host = site_with_two_posts();
    assert!(host.conductor.document_by_url("/post/hello").is_some());
}

#[test]
fn document_by_url_returns_none_for_unknown() {
    let host = site_with_two_posts();
    assert!(host.conductor.document_by_url("/nonexistent/page").is_none());
}

#[test]
fn documents_for_stem_finds_all_items() {
    let host = site_with_two_posts();
    let roots = host.conductor.documents_for_stem("post");
    assert_eq!(roots.len(), 2, "expected 2 roots for two content files, got {}", roots.len());
}

#[test]
fn documents_for_stem_returns_empty_for_unknown() {
    let host = site_with_two_posts();
    assert!(host.conductor.documents_for_stem("nonexistent").is_empty());
}

#[test]
fn query_items_from_store_returns_all_items() {
    let host = site_with_two_posts();
    let items = host.conductor.query_items_from_store("post");
    assert_eq!(items.len(), 2, "expected 2 items, got {}", items.len());
    let urls: Vec<&str> = items.iter().map(|i| i.url.as_str()).collect();
    assert!(urls.contains(&"/post/hello"), "items should include /post/hello; got {urls:?}");
    assert!(urls.contains(&"/post/second"), "items should include /post/second; got {urls:?}");
}

#[test]
fn query_items_from_store_returns_empty_for_unknown_stem() {
    let host = site_with_two_posts();
    assert!(host.conductor.query_items_from_store("nonexistent").is_empty());
}

#[test]
fn content_urls_are_those_of_items_in_order() {
    let host = site_with_two_posts();
    assert_eq!(
        host.conductor.list_content_urls(),
        vec!["/post/hello".to_string(), "/post/second".to_string()]
    );
}

const CONTENT_V1: &str = "# Original Title\n\n----\n\nOriginal body\n";
const CONTENT_V2: &str = "# Updated Title\n\n----\n\nUpdated body\n";

fn single_post_site() -> Host {
    Host::new(
        &[item("post", ITEM_SCHEMA_SRC, title_grammar)],
        &[
            ("templates/post/item.hiccup", "[:div [:h1 title]]"),
            ("content/post/hello.md", CONTENT_V1),
        ],
    )
}

fn update(host: &mut Host, text: &str) {
    host.handle(Command::DocumentChanged {
        path: full("content/post/hello.md"),
        text: text.to_string(),
    });
}

#[test]
fn update_document_sets_url_to_root() {
    let mut host = single_post_site();
    let old_root = host.conductor.document_by_url("/post/hello").unwrap();
    let old_sem = host.conductor.semantic_content_by_url("/post/hello").unwrap();
    update(&mut host, CONTENT_V2);
    let new_root = host.conductor.document_by_url("/post/hello").unwrap();
    assert_ne!(old_root, new_root, "an update should create new document nodes");
    let new_sem = host.conductor.semantic_content_by_url("/post/hello").unwrap();
    assert_ne!(old_sem, new_sem);
}

#[test]
fn update_document_does_not_duplicate_stem_roots() {
    let mut host = single_post_site();
    update(&mut host, CONTENT_V2);
    let roots = host.conductor.documents_for_stem("post");
    assert_eq!(roots.len(), 1, "expected exactly 1 root after update, got {}", roots.len());
}

#[test]
fn update_document_reflects_new_content() {
    let mut host = single_post_site();
    assert_eq!(
        slot_text(&host, "content/post/hello.md", "title").as_deref(),
        Some("Original Title")
    );
    update(&mut host, CONTENT_V2);
    assert_eq!(
        slot_text(&host, "content/post/hello.md", "title").as_deref(),
        Some("Updated Title"),
        "title should reflect updated content"
    );
}

#[test]
fn workspace_hash_returns_untracked_for_non_git_dir() {
    assert_eq!(Conductor::workspace_hash(None), "untracked");
}

#[test]
fn workspace_hash_is_what_git_prints() {
    let printed = "0123456789abcdef0123456789abcdef01234567\n".to_string();
    assert_eq!(
        Conductor::workspace_hash(Some(printed)),
        "0123456789abcdef0123456789abcdef01234567"
    );
}

// ── Shapes of slots ──────────────────────────────────────────────────────────

fn slot_with(tags: &[&str]) -> SlotShape {
    let mut store = NodeStore::new();
    let slot = add_element(&mut store, "slot");
    for tag in tags {
        let child = add_element(&mut store, tag);
        append_child(&mut store, slot, child);
    }
    slot_shape_for_node(&store, slot)
}

#[test]
fn empty_slot_returns_empty() {
    assert!(matches!(slot_with(&[]), SlotShape::Empty));
}

#[test]
fn slot_with_heading_child_returns_single_text() {
    let mut store = NodeStore::new();
    let slot = add_element(&mut store, "slot");
    let heading = add_element(&mut store, "heading");
    let text = add_text(&mut store, "My Heading");
    append_child(&mut store, heading, text);
    append_child(&mut store, slot, heading);
    assert!(matches!(slot_shape_for_node(&store, slot), SlotShape::SingleText));
}

#[test]
fn slot_with_paragraph_child_returns_single_text() {
    let mut store = NodeStore::new();
    let slot = add_element(&mut store, "slot");
    let para = add_element(&mut store, "paragraph");
    let text = add_text(&mut store, "Some text");
    append_child(&mut store, para, text);
    append_child(&mut store, slot, para);
    assert!(matches!(slot_shape_for_node(&store, slot), SlotShape::SingleText));
}

#[test]
fn slot_with_multiple_children_returns_multi() {
    assert!(matches!(slot_with(&["heading", "paragraph"]), SlotShape::Multi));
}

#[test]
fn slot_with_link_child_returns_non_text() {
    assert!(matches!(slot_with(&["link"]), SlotShape::NonText));
}

#[test]
fn slot_with_list_child_returns_non_text() {
    assert!(matches!(slot_with(&["list"]), SlotShape::NonText));
}

#[test]
fn slot_with_image_child_returns_non_text() {
    assert!(matches!(slot_with(&["image"]), SlotShape::NonText));
}

// ── Programs and the suggestions that are written as such ────────────────────

fn conductor_with_doc() -> Host {
    let mut host = Host::new(
        &[item("test", ITEM_SCHEMA_SRC, title_grammar)],
        &[("templates/test/item.hiccup", "[:div]")],
    );
    let title = DocumentSlot {
        name: SlotName::new("title"),
        elements: im::Vector::unit(spanned(ContentElement::Heading {
            level: HeadingLevel::new(1).unwrap(),
            text: "Test Title".to_string(),
        })),
    };
    let link = DocumentSlot {
        name: SlotName::new("link-slot"),
        elements: im::Vector::unit(spanned(ContentElement::Link {
            text: "Click me".to_string(),
            href: "https://example.com".to_string(),
        })),
    };
    let mut preamble = im::Vector::new();
    preamble.push_back(title);
    preamble.push_back(link);
    let document = Document {
        preamble,
        body: im::Vector::unit(spanned(ContentElement::Paragraph {
            text: "Body text".to_string(),
        })),
        has_separator: false,
        separator_span: None,
    };
    let meta = DocumentMeta {
        url: "/test/doc".to_string(),
        stem: "test".to_string(),
        file: "content/test/doc.md".to_string(),
        page_kind: "item".to_string(),
    };
    document_to_store(&document, &mut host.conductor.store, &meta);
    host
}

const TITLE: &str = r#"(ned/slot (ned/doc-by-path "content/test/doc.md") "title")"#;
const LINK: &str = r#"(ned/slot (ned/doc-by-path "content/test/doc.md") "link-slot")"#;

/// What is said against a selection for a suggestion.
fn objection(host: &mut Host, selection: &str) -> Option<String> {
    let outcome = run_program(&mut host.conductor.store, selection);
    presemble::editing::classify_selection_for_creation(&host.conductor.store, &outcome)
}

#[test]
fn text_slot_selection_is_ok() {
    let mut host = conductor_with_doc();
    assert_eq!(objection(&mut host, TITLE), None);
}

#[test]
fn link_slot_selection_is_rejected() {
    let mut host = conductor_with_doc();
    let err = objection(&mut host, LINK).expect("expected an objection to a non-text slot");
    assert!(err.contains("non-text slot"), "got: {err:?}");
}

#[test]
fn empty_selection_is_rejected() {
    let mut host = conductor_with_doc();
    let src = r#"(ned/doc-by-path "content/test/does-not-exist.md")"#;
    let err = objection(&mut host, src).expect("expected an objection to an empty selection");
    assert!(err.contains("resolves to no nodes"), "got: {err:?}");
}

#[test]
fn body_element_selection_is_ok() {
    let mut host = conductor_with_doc();
    let src = r#"(ned/body-at (ned/doc-by-path "content/test/doc.md") 0)"#;
    assert_eq!(objection(&mut host, src), None);
}

#[test]
fn malformed_clojure_is_rejected() {
    let mut host = conductor_with_doc();
    let err = objection(&mut host, "(this is (not valid clojure")
        .expect("expected an objection to a malformed program");
    assert!(err.contains("failed to evaluate"), "got: {err:?}");
}

fn propose(host: &mut Host, selection: &str, mutation: NedMutation) -> CommandResult {
    host.handle(Command::CreateNedSuggestion {
        file: "content/test/doc.md".to_string(),
        selection: selection.to_string(),
        mutation,
        reason: "Better title".to_string(),
        author: Author::Claude,
    })
}

fn status_of(host: &Host, id: &SuggestionId) -> NedSuggestionStatus {
    host.conductor.ned_suggestions.get(&id.0).expect("suggestion in memory").status.clone()
}

fn kept_status(host: &Host, id: &SuggestionId) -> Option<String> {
    host.kept.get(&format!("{SITE}/.presemble/suggestions/ned/{}.json", id.0)).cloned()
}

#[test]
fn create_ned_suggestion_happy_path() {
    let mut host = conductor_with_doc();
    let result = propose(&mut host, TITLE, NedMutation::SetText("Updated Title".to_string()));
    let id = created(result.response);
    assert!(
        result.events.iter().any(|ev| matches!(ev, ConductorEvent::NedSuggestionCreated { .. })),
        "should emit NedSuggestionCreated event"
    );
    assert_eq!(status_of(&host, &id), NedSuggestionStatus::Pending);
    assert_eq!(kept_status(&host, &id).as_deref(), Some("Pending"));
    let sug = host.conductor.ned_suggestions.get(&id.0).unwrap();
    assert_eq!(sug.created_at, "1970-01-01T00:00:00Z");
    assert_eq!(sug.workspace_hash, "untracked");
}

#[test]
fn create_ned_suggestion_rejects_non_text_slot() {
    let mut host = conductor_with_doc();
    let result = propose(&mut host, LINK, NedMutation::SetText("x".to_string()));
    assert!(
        matches!(result.response, Response::Error(_)),
        "expected Response::Error, got: {:?}",
        result.response
    );
    assert!(host.kept.is_empty(), "nothing should be kept after rejection");
    assert!(host.conductor.ned_suggestions.len() == 0);
}

#[test]
fn accept_ned_suggestion_happy_path() {
    let mut host = conductor_with_doc();
    let mutation = NedMutation::SearchReplace {
        search: "Test Title".to_string(),
        replace: "Accepted Title".to_string(),
    };
    let id = created(propose(&mut host, TITLE, mutation).response);
    let accepted = host.handle(Command::AcceptNedSuggestion { id: id.clone() });
    assert!(
        matches!(accepted.response, Response::Done),
        "expected Done on accept, got: {:?}",
        accepted.response
    );
    assert!(
        accepted.events.iter().any(|ev| matches!(ev, ConductorEvent::SuggestionAccepted { .. })),
        "should emit SuggestionAccepted event"
    );
    assert_eq!(status_of(&host, &id), NedSuggestionStatus::Accepted);
    assert_eq!(kept_status(&host, &id).as_deref(), Some("Accepted"));
    assert!(host
        .conductor
        .store
        .nodes
        .iter()
        .any(|n| matches!(&n.node, Node::Text(t) if t == "Accepted Title")));
    assert!(is_dirty(&host, "content/test/doc.md"));
}

#[test]
fn accept_ned_suggestion_stale_on_broken_selection() {
    let mut host = conductor_with_doc();
    let id =
        created(propose(&mut host, TITLE, NedMutation::SetText("Changed".to_string())).response);
    host.conductor.store.clear();
    let accepted = host.handle(Command::AcceptNedSuggestion { id: id.clone() });
    assert!(
        matches!(accepted.response, Response::Done),
        "expected Done (stale path), got: {:?}",
        accepted.response
    );
    assert!(
        accepted.events.iter().any(|ev| matches!(ev, ConductorEvent::NedSuggestionStaled { .. })),
        "should emit NedSuggestionStaled event; got: {:?}",
        accepted.events
    );
    assert_eq!(
        status_of(&host, &id),
        NedSuggestionStatus::Stale {
            reason: "selection no longer resolves to any node".to_string(),
        }
    );
    assert_eq!(
        host.respond(Command::AcceptNedSuggestion { id }),
        Response::Error("ned suggestion s-1 is not pending".to_string())
    );
}

#[test]
fn a_mutation_that_cannot_be_composed_goes_stale() {
    let mut host = conductor_with_doc();
    let id = created(propose(&mut host, TITLE, NedMutation::Other("move".to_string())).response);
    host.handle(Command::AcceptNedSuggestion { id: id.clone() });
    assert_eq!(
        status_of(&host, &id),
        NedSuggestionStatus::Stale { reason: "unsupported mutation".to_string() }
    );
}

#[test]
fn reject_ned_suggestion() {
    let mut host = conductor_with_doc();
    let id = created(propose(&mut host, TITLE, NedMutation::Delete).response);
    let rejected = host.handle(Command::RejectNedSuggestion { id: id.clone() });
    assert!(
        matches!(rejected.response, Response::Done),
        "expected Done on reject, got: {:?}",
        rejected.response
    );
    assert!(
        rejected.events.iter().any(|ev| matches!(ev, ConductorEvent::SuggestionRejected { .. })),
        "should emit SuggestionRejected event"
    );
    assert_eq!(status_of(&host, &id), NedSuggestionStatus::Rejected);
    assert_eq!(kept_status(&host, &id).as_deref(), Some("Rejected"));
    assert_eq!(
        host.respond(Command::RejectNedSuggestion { id: SuggestionId("x".to_string()) }),
        Response::Error("ned suggestion not found: x".to_string())
    );
}

fn ned_for(host: &mut Host, file: &str) -> Vec<NedSuggestion> {
    match host.respond(Command::GetNedSuggestions { file: ContentPath::new(file) }) {
        Response::NedSuggestions(v) => v,
        other => panic!("expected NedSuggestions, got: {other:?}"),
    }
}

#[test]
fn get_ned_suggestions_empty_for_unknown_file() {
    let mut host = conductor_with_doc();
    assert!(ned_for(&mut host, "content/test/nonexistent.md").is_empty(), "expected empty vec");
}

#[test]
fn get_ned_suggestions_returns_pending_suggestion() {
    let mut host = conductor_with_doc();
    let mutation = NedMutation::SetText("Pending Title".to_string());
    let id = created(propose(&mut host, TITLE, mutation).response);
    let v = ned_for(&mut host, "content/test/doc.md");
    assert_eq!(v.len(), 1, "expected one suggestion");
    assert_eq!(v[0].id, id);
    assert_eq!(v[0].status, NedSuggestionStatus::Pending);
}

#[test]
fn get_ned_suggestions_returns_all_statuses() {
    let mut host = conductor_with_doc();
    propose(&mut host, TITLE, NedMutation::SetText("Pending".to_string()));
    let accepted =
        created(propose(&mut host, TITLE, NedMutation::SetText("Accepted".to_string())).response);
    host.handle(Command::AcceptNedSuggestion { id: accepted });
    let rejected =
        created(propose(&mut host, TITLE, NedMutation::SetText("Rejected".to_string())).response);
    host.handle(Command::RejectNedSuggestion { id: rejected });
    let stale =
        created(propose(&mut host, TITLE, NedMutation::SetText("Stale".to_string())).response);
    host.conductor.store.clear();
    host.handle(Command::AcceptNedSuggestion { id: stale });

    let v = ned_for(&mut host, "content/test/doc.md");
    assert_eq!(v.len(), 4, "expected four suggestions (Pending, Accepted, Rejected, Stale)");
    let statuses: Vec<_> = v.iter().map(|s| &s.status).collect();
    assert!(statuses.iter().any(|s| **s == NedSuggestionStatus::Pending), "missing Pending");
    assert!(statuses.iter().any(|s| **s == NedSuggestionStatus::Accepted), "missing Accepted");
    assert!(statuses.iter().any(|s| **s == NedSuggestionStatus::Rejected), "missing Rejected");
    assert!(
        statuses.iter().any(|s| matches!(s, NedSuggestionStatus::Stale { .. })),
        "missing Stale"
    );
}

fn ned_suggestion(id: &str, file: &str, status: NedSuggestionStatus) -> NedSuggestion {
    NedSuggestion {
        id: SuggestionId(id.to_string()),
        author: Author::Claude,
        file: ContentPath::new(file),
        selection: "(some-selection)".to_string(),
        mutation: NedMutation::SetText("Text".to_string()),
        workspace_hash: "abc".to_string(),
        reason: "a reason".to_string(),
        status,
        created_at: "2026-04-28T00:00:00Z".to_string(),
    }
}

fn insert_ned(host: &mut Host, suggestion: NedSuggestion) {
    host.conductor.ned_suggestions.insert(suggestion.id.0.clone(), suggestion);
}

#[test]
fn get_ned_suggestions_filters_by_file() {
    let mut host = conductor_with_doc();
    let mutation = NedMutation::SetText("For file A".to_string());
    let id_a = created(propose(&mut host, TITLE, mutation).response);
    let other = ned_suggestion("b", "content/test/other.md", NedSuggestionStatus::Pending);
    insert_ned(&mut host, other);

    let a = ned_for(&mut host, "content/test/doc.md");
    assert_eq!(a.len(), 1, "expected only file_a suggestion");
    assert_eq!(a[0].id, id_a);
    let b = ned_for(&mut host, "content/test/other.md");
    assert_eq!(b.len(), 1, "expected only file_b suggestion");
    assert_eq!(b[0].file, ContentPath::new("content/test/other.md"));
}

fn ned_files(host: &mut Host) -> Vec<String> {
    match host.respond(Command::GetNedSuggestionFiles) {
        Response::NedSuggestionFiles(files) => files,
        other => panic!("expected NedSuggestionFiles, got: {other:?}"),
    }
}

#[test]
fn get_ned_suggestion_files_returns_only_pending_files() {
    let mut host = conductor_with_doc();
    let pending = NedSuggestionStatus::Pending;
    insert_ned(&mut host, ned_suggestion("a", "content/test/alpha.md", pending.clone()));
    insert_ned(&mut host, ned_suggestion("b", "content/test/beta.md", pending));
    let gamma = ned_suggestion("c", "content/test/gamma.md", NedSuggestionStatus::Rejected);
    insert_ned(&mut host, gamma);

    let files = ned_files(&mut host);
    assert_eq!(files.len(), 2, "expected exactly two pending files");
    assert_eq!(files[0], "content/test/alpha.md");
    assert_eq!(files[1], "content/test/beta.md");
}

#[test]
fn get_ned_suggestion_files_empty_when_only_rejected_or_accepted() {
    let mut host = conductor_with_doc();
    let doc = ned_suggestion("a", "content/test/doc.md", NedSuggestionStatus::Rejected);
    insert_ned(&mut host, doc);
    let other = ned_suggestion("b", "content/test/other.md", NedSuggestionStatus::Accepted);
    insert_ned(&mut host, other);
    assert!(ned_files(&mut host).is_empty(), "expected no files when only Rejected and Accepted");
}

#[test]
fn get_ned_suggestion_files_includes_stale_files() {
    let mut host = conductor_with_doc();
    let status =
        NedSuggestionStatus::Stale { reason: "selection no longer resolves".to_string() };
    insert_ned(&mut host, ned_suggestion("a", "content/test/stale-doc.md", status));
    let files = ned_files(&mut host);
    assert_eq!(files.len(), 1, "stale file must appear");
    assert_eq!(files[0], "content/test/stale-doc.md");
}

#[test]
fn get_ned_suggestion_files_deduplicates_same_file() {
    let mut host = conductor_with_doc();
    let pending = NedSuggestionStatus::Pending;
    insert_ned(&mut host, ned_suggestion("a", "content/test/doc.md", pending.clone()));
    insert_ned(&mut host, ned_suggestion("b", "content/test/doc.md", pending));
    let files = ned_files(&mut host);
    assert_eq!(files.len(), 1, "expected deduplicated to one file");
    assert_eq!(files[0], "content/test/doc.md");
}

#[test]
fn ned_suggestions_of_every_status_are_loaded() {
    let mut host = conductor_with_doc();
    host.conductor.load_ned_suggestions(vec![
        ned_suggestion("a", "content/test/doc.md", NedSuggestionStatus::Accepted),
        ned_suggestion("b", "content/test/doc.md", NedSuggestionStatus::Pending),
        ned_suggestion("a", "content/test/doc.md", NedSuggestionStatus::Rejected),
    ]);
    let v = ned_for(&mut host, "content/test/doc.md");
    assert_eq!(v.len(), 2);
    assert_eq!(v[0].status, NedSuggestionStatus::Rejected);
}

#[test]
fn apply_no_selection_returns_zero_dirty_paths() {
    let mut host = conductor_with_doc();
    match host.respond(Command::ApplyNedProgram { program: "42".to_string() }) {
        Response::Applied { dirty_paths, rebuilt_pages, failed_pages } => {
            assert_eq!(dirty_paths, 0, "non-Selection program should report 0 dirty paths");
            assert!(rebuilt_pages.is_empty(), "no pages should be rebuilt for a no-op");
            assert!(failed_pages.is_empty(), "no pages should fail for a no-op");
        }
        other => panic!("expected Response::Applied, got: {other:?}"),
    }
}

#[test]
fn apply_with_selection_returns_correct_dirty_paths_count() {
    let mut host = conductor_with_doc();
    let program = r#"(ned/set-text (-> (ned/slot (ned/doc-by-path "content/test/doc.md") "title") ned/descendants ned/texts) "Changed")"#;
    match host.respond(Command::ApplyNedProgram { program: program.to_string() }) {
        Response::Applied { dirty_paths, .. } => {
            assert_eq!(dirty_paths, 1, "a change to one document should report one dirty path");
        }
        other => panic!("expected Response::Applied, got: {other:?}"),
    }
}

#[test]
fn a_program_that_fails_is_an_error() {
    let mut host = conductor_with_doc();
    assert_eq!(
        host.respond(Command::ApplyNedProgram { program: "(ned/slot".to_string() }),
        Response::Error("eval error: unexpected end of input".to_string())
    );
}

// ── Pages and their schemas ──────────────────────────────────────────────────

fn routed_site() -> Host {
    let content = "title: Hello\n---\nBody\n";
    Host::new(
        &[
            item("post", ITEM_SCHEMA_SRC, title_grammar),
            collection("post", ITEM_SCHEMA_SRC, title_grammar),
            collection("", ITEM_SCHEMA_SRC, title_grammar),
        ],
        &[
            ("templates/post/item.hiccup", "[:div [:h1 title]]"),
            ("templates/post/index.hiccup", "[:div [:h1 title]]"),
            ("templates/index.hiccup", "[:div [:h1 title]]"),
            ("content/index.md", content),
            ("content/post/index.md", content),
            ("content/post/foo.md", content),
            ("content/post/bar.md", content),
        ],
    )
}

fn schema_url(page: &str) -> Option<String> {
    routed_site().conductor.schema_url_for_page(page)
}

#[test]
fn schema_url_for_page_root_index() {
    assert_eq!(schema_url("/"), Some("/_schema/index".to_string()));
}

#[test]
fn schema_url_for_page_collection() {
    assert_eq!(schema_url("/post/"), Some("/_schema/post/index".to_string()));
}

#[test]
fn schema_url_for_page_item() {
    assert_eq!(schema_url("/post/foo"), Some("/_schema/post/item".to_string()));
}

#[test]
fn schema_url_for_page_canonicalizes_index_html() {
    assert_eq!(schema_url("/post/foo/index.html"), Some("/_schema/post/item".to_string()));
}

#[test]
fn schema_url_for_page_unknown_returns_none() {
    assert_eq!(schema_url("/no/such/page"), None);
}

#[test]
fn schema_url_for_page_canonicalizes_root_index_html() {
    assert_eq!(schema_url("/index.html"), Some("/_schema/index".to_string()));
}

#[test]
fn schema_url_for_page_canonicalizes_collection_index_html() {
    assert_eq!(schema_url("/post/index.html"), Some("/_schema/post/index".to_string()));
}

#[test]
fn schema_url_for_page_handles_item_with_trailing_slash() {
    assert_eq!(schema_url("/post/foo/"), Some("/_schema/post/item".to_string()));
}

#[test]
fn schema_url_for_page_handles_collection_without_trailing_slash() {
    assert_eq!(schema_url("/post"), Some("/_schema/post/index".to_string()));
}

fn page_url(schema: &str) -> Option<String> {
    routed_site().conductor.page_url_for_schema(schema)
}

#[test]
fn page_url_for_schema_root_index() {
    assert_eq!(page_url("/_schema/index"), Some("/".to_string()));
}

#[test]
fn page_url_for_schema_collection() {
    assert_eq!(page_url("/_schema/post/index"), Some("/post/".to_string()));
}

#[test]
fn page_url_for_schema_item_prefers_collection_page() {
    assert_eq!(page_url("/_schema/post/item"), Some("/post/".to_string()));
}

#[test]
fn page_url_for_schema_item_falls_back_to_first_item_when_no_collection() {
    let content = "title: Hello\n---\nBody\n";
    let host = Host::new(
        &[
            item("post", ITEM_SCHEMA_SRC, title_grammar),
            collection("", ITEM_SCHEMA_SRC, title_grammar),
        ],
        &[
            ("templates/post/item.hiccup", "[:div [:h1 title]]"),
            ("templates/index.hiccup", "[:div [:h1 title]]"),
            ("content/index.md", content),
            ("content/post/foo.md", content),
            ("content/post/bar.md", content),
        ],
    );
    let result = host.conductor.page_url_for_schema("/_schema/post/item");
    assert!(result.is_some(), "expected Some(url) for known item schema without collection page");
    let url = result.unwrap();
    assert!(url.starts_with("/post/"), "result should be under /post/, got: {url}");
    assert_eq!(url, "/post/bar");
}

#[test]
fn page_url_for_schema_unknown_stem_returns_none() {
    assert_eq!(page_url("/_schema/no-such-stem/item"), None);
}

#[test]
fn page_url_for_schema_malformed_returns_none() {
    assert_eq!(page_url("/_schema/foo/bar/baz"), None);
}

#[test]
fn routing_commands_answer_with_urls() {
    let mut host = routed_site();
    assert_eq!(
        host.respond(Command::SchemaUrlForPage { page_url: "/post/foo".to_string() }),
        Response::SchemaUrl(Some("/_schema/post/item".to_string()))
    );
    assert_eq!(
        host.respond(Command::PageUrlForSchema { schema_url: "/_schema/index".to_string() }),
        Response::PageUrl(Some("/".to_string()))
    );
}

#[test]
fn pages_are_shown_as_written_or_by_their_schema() {
    let mut host = routed_site();
    host.files.insert(full("output/post/foo.html"), "<p>foo</p>".to_string());
    let view = |path: &str| Command::RenderPage { path: path.to_string(), mode: RenderMode::View };
    let schema =
        |path: &str| Command::RenderPage { path: path.to_string(), mode: RenderMode::Schema };
    assert_eq!(
        host.respond(view("/post/foo")),
        Response::PageRendered { html: "<p>foo</p>".to_string() }
    );
    assert_eq!(
        host.respond(view("/post/none")),
        Response::Error("no output for /post/none: not found".to_string())
    );
    assert_eq!(
        host.respond(schema("/post/foo")),
        Response::PageRendered { html: "<post>".to_string() }
    );
    assert_eq!(
        host.respond(schema("/post/")),
        Response::PageRendered { html: "<post/index>".to_string() }
    );
    assert_eq!(
        host.respond(schema("/none/x")),
        Response::Error("no schema for /none/x (key=none)".to_string())
    );
    host.files.retain(|path, _| !path.contains("/templates/"));
    assert_eq!(
        host.respond(schema("/post/foo")),
        Response::Error("no template for stem post".to_string())
    );
}

// ── Saving ───────────────────────────────────────────────────────────────────

#[test]
fn a_text_that_an_editor_holds_is_saved() {
    let mut host = single_post_site();
    update(&mut host, CONTENT_V2);
    assert_eq!(
        host.respond(Command::GetDirtyBuffers),
        Response::DirtyBuffers(vec!["content/post/hello.md".to_string()])
    );
    let path = "content/post/hello.md".to_string();
    assert!(matches!(host.respond(Command::SaveBuffer { path: path.clone() }), Response::Done));
    assert_eq!(host.files[&full(&path)], CONTENT_V2);
    assert_eq!(host.respond(Command::GetDirtyBuffers), Response::DirtyBuffers(vec![]));
    assert_eq!(
        host.respond(Command::SaveBuffer { path }),
        Response::Error("buffer not dirty: content/post/hello.md".to_string())
    );
}

#[test]
fn a_document_that_was_edited_is_saved_from_the_store() {
    let mut host = single_post_site();
    let path = "content/post/hello.md".to_string();
    host.handle(Command::EditSlot {
        file: path.clone(),
        slot: "title".to_string(),
        value: "Edited".to_string(),
    });
    assert!(is_dirty(&host, &path));
    assert!(matches!(host.respond(Command::SaveBuffer { path: path.clone() }), Response::Done));
    assert!(host.files[&full(&path)].contains("Edited"));
    assert!(!is_dirty(&host, &path));
}

#[test]
fn everything_is_saved_at_once() {
    let mut host = site_with_two_posts();
    host.handle(Command::EditSlot {
        file: "content/post/second.md".to_string(),
        slot: "title".to_string(),
        value: "Edited".to_string(),
    });
    update(&mut host, CONTENT_V2);
    assert_eq!(
        host.respond(Command::GetDirtyBuffers),
        Response::DirtyBuffers(vec![
            "content/post/hello.md".to_string(),
            "content/post/second.md".to_string(),
        ])
    );
    assert!(matches!(host.respond(Command::SaveAllBuffers), Response::Done));
    assert_eq!(host.files[&full("content/post/hello.md")], CONTENT_V2);
    assert!(host.files[&full("content/post/second.md")].contains("Edited"));
    assert_eq!(host.respond(Command::GetDirtyBuffers), Response::DirtyBuffers(vec![]));
}

#[test]
fn a_write_that_fails_names_the_file() {
    let mut host = single_post_site();
    update(&mut host, CONTENT_V2);
    let Step::Write(task) = host.conductor.handle_command(Command::SaveAllBuffers) else {
        panic!("expected files to be written")
    };
    let outcome =
        WriteOutcome { times: Vec::new(), now: 1, error: Some("disk full".to_string()) };
    let Step::Done(result) = host.conductor.on_written(task, outcome) else {
        panic!("expected a result")
    };
    assert_eq!(
        result.response,
        Response::Error(
            "write error for /test-site/content/post/hello.md: disk full".to_string()
        )
    );
    assert_eq!(
        host.respond(Command::GetDirtyBuffers),
        Response::DirtyBuffers(vec!["content/post/hello.md".to_string()])
    );

    let path = "content/post/hello.md".to_string();
    let Step::Write(task) = host.conductor.handle_command(Command::SaveBuffer { path }) else {
        panic!("expected a file to be written")
    };
    let outcome =
        WriteOutcome { times: Vec::new(), now: 1, error: Some("disk full".to_string()) };
    let Step::Done(result) = host.conductor.on_written(task, outcome) else {
        panic!("expected a result")
    };
    assert_eq!(result.response, Response::Error("write error: disk full".to_string()));
}

#[test]
fn an_edited_document_without_a_node_cannot_be_saved() {
    let mut host = single_post_site();
    host.conductor.dirty_docs.mark("content/post/gone.md");
    assert_eq!(
        host.respond(Command::SaveBuffer { path: "content/post/gone.md".to_string() }),
        Response::Error("document not in store: content/post/gone.md".to_string())
    );
}

#[test]
fn what_the_conductor_wrote_itself_is_no_change() {
    let mut host = single_post_site();
    update(&mut host, CONTENT_V2);
    host.handle(Command::SaveAllBuffers);
    let paths = vec!["content/post/hello.md".to_string()];
    let own = host.handle(Command::FileChanged { paths: paths.clone() });
    assert!(matches!(own.response, Response::Done));
    assert!(own.events.is_empty(), "{:?}", own.events);

    host.files.insert(full("content/post/hello.md"), "# Changed elsewhere\n".to_string());
    let foreign = host.handle(Command::FileChanged { paths });
    assert_eq!(
        foreign.events,
        vec![ConductorEvent::PagesRebuilt {
            pages: vec!["/post/hello".to_string()],
            anchor: None,
        }]
    );
    assert_eq!(
        slot_text(&host, "content/post/hello.md", "title").as_deref(),
        Some("Changed elsewhere")
    );
}

// ── New content ──────────────────────────────────────────────────────────────

#[test]
fn new_content_is_created_and_built() {
    let mut host = single_post_site();
    let result =
        host.handle(Command::CreateContent { stem: "post".to_string(), slug: "new".to_string() });
    assert_eq!(result.response, Response::ContentCreated("/post/new".to_string()));
    assert!(host.conductor.document_by_url("/post/new").is_some());
    assert!(matches!(&result.events[..], [ConductorEvent::PagesRebuilt { pages, .. }]
        if pages.contains(&"/post/new".to_string())));
}

#[test]
fn content_of_an_unknown_schema_is_refused() {
    let mut host = single_post_site();
    assert_eq!(
        host.respond(Command::CreateContent {
            stem: "none".to_string(),
            slug: "new".to_string(),
        }),
        Response::Error("unknown schema type: none".to_string())
    );
}

fn scaffold(name: &str) -> Command {
    Command::ScaffoldSite {
        template_name: name.to_string(),
        format: "html".to_string(),
        font_mood: String::new(),
        seed_color: String::new(),
        palette_type: String::new(),
        complexity: String::new(),
        theme: String::new(),
    }
}

#[test]
fn a_new_site_is_filled_and_loaded() {
    let mut host = Host::new(&[item("post", ITEM_SCHEMA_SRC, title_grammar)], &[]);
    assert!(matches!(host.respond(scaffold("blog")), Response::Done));
    assert!(host.conductor.document_by_url("/post/welcome").is_some());
    assert_eq!(
        host.respond(scaffold("shop")),
        Response::Error("unknown template: shop".to_string())
    );
}

// ── What a change leads to ───────────────────────────────────────────────────

#[test]
fn only_the_pages_of_changed_files_are_rendered() {
    let mut host = two_post_conductor();
    let first = full("content/post/first.md");
    host.files.insert(first.clone(), "# Changed\n\n----\n\nBody of first.\n".to_string());
    let result = host.handle(Command::FileChanged { paths: vec![first] });
    assert_eq!(
        result.events,
        vec![ConductorEvent::PagesRebuilt {
            pages: vec!["/post/first".to_string()],
            anchor: None,
        }]
    );
}

#[test]
fn a_changed_template_renders_all_pages_that_use_it() {
    let mut host = two_post_conductor();
    let template = full("templates/post/item.hiccup");
    host.files.insert(template.clone(), "[:html]".to_string());
    let result = host.handle(Command::FileChanged { paths: vec![template] });
    let [ConductorEvent::PagesRebuilt { pages, .. }] = &result.events[..] else {
        panic!("expected rebuilt pages, got {:?}", result.events)
    };
    let mut pages = pages.clone();
    pages.sort();
    assert_eq!(pages, ["/post/first", "/post/second"]);
}

#[test]
fn new_content_is_rendered_when_it_appears() {
    let mut host = two_post_conductor();
    let third = full("content/post/third.md");
    host.files.insert(third.clone(), "# Third\n\n----\n".to_string());
    let result = host.handle(Command::FileChanged { paths: vec![third] });
    assert_eq!(
        result.events,
        vec![ConductorEvent::PagesRebuilt {
            pages: vec!["/post/third".to_string()],
            anchor: None,
        }]
    );
}

#[test]
fn a_save_that_fails_keeps_what_was_not_written_changed() {
    let mut host = two_post_conductor();
    for file in ["content/post/first.md", "content/post/second.md"] {
        host.handle(Command::EditSlot {
            file: file.to_string(),
            slot: "title".to_string(),
            value: "Edited".to_string(),
        });
    }
    host.unwritable = Some(full("content/post/second.md"));
    assert!(matches!(host.respond(Command::SaveAllBuffers), Response::Error(_)));
    assert!(!is_dirty(&host, "content/post/first.md"));
    assert!(is_dirty(&host, "content/post/second.md"));

    host.unwritable = None;
    assert!(matches!(host.respond(Command::SaveAllBuffers), Response::Done));
    assert!(!is_dirty(&host, "content/post/second.md"));
    assert!(host.files[&full("content/post/second.md")].contains("Edited"));
}

#[test]
fn a_loaded_document_is_found_by_its_url_and_its_file() {
    let mut host = two_post_conductor();
    for (url, file) in
        [("/post/first", "content/post/first.md"), ("/post/second", "content/post/second.md")]
    {
        let root = host.conductor.document_by_url(url).unwrap();
        assert_eq!(root_of(&host, file), Some(root));
        let all = host.conductor.documents_for_stem("post");
        assert_eq!(all.iter().filter(|&&r| r == root).count(), 1);
    }
    let counts = |host: &Host| {
        (
            host.conductor.url_to_root.len(),
            host.conductor.path_to_doc_root.len(),
            host.conductor.documents_for_stem("post").len(),
        )
    };
    let before = counts(&host);
    assert_eq!(before, (2, 2, 2));
    let first = full("content/post/first.md");
    host.handle(Command::FileChanged { paths: vec![first] });
    assert_eq!(counts(&host), before);
}

#[test]
fn a_document_that_replaces_another_keeps_the_others() {
    let mut host = two_post_conductor();
    let old = host.conductor.document_by_url("/post/first").unwrap();
    let second = host.conductor.document_by_url("/post/second").unwrap();
    let new = host.conductor.store.add_node(Node::Element("document".to_string()));
    let meta = DocumentMeta {
        url: "/post/first".to_string(),
        stem: "post".to_string(),
        file: "content/post/first.md".to_string(),
        page_kind: "item".to_string(),
    };
    host.conductor.place_document(&meta, new);
    let all = host.conductor.documents_for_stem("post");
    assert_eq!(all.len(), 2);
    assert!(all.contains(&new) && all.contains(&second) && !all.contains(&old));
    assert_eq!(host.conductor.document_by_url("/post/first"), Some(new));
    assert_eq!(host.conductor.document_by_url("/post/second"), Some(second));
}

#[test]
fn deciding_on_one_ned_suggestion_keeps_the_others() {
    let mut host = conductor_with_doc();
    let accepted =
        created(propose(&mut host, TITLE, NedMutation::SetText("Changed".to_string())).response);
    let rejected = created(propose(&mut host, TITLE, NedMutation::Delete).response);
    let open = created(propose(&mut host, TITLE, NedMutation::Delete).response);
    let result = host.handle(Command::RejectNedSuggestion { id: rejected.clone() });
    assert_eq!(result.events.len(), 1);
    assert!(!is_dirty(&host, "content/test/doc.md"));
    let result = host.handle(Command::AcceptNedSuggestion { id: accepted.clone() });
    assert!(matches!(
        &result.events[..],
        [ConductorEvent::SuggestionAccepted { id, .. }] if *id == accepted
    ));
    assert_eq!(status_of(&host, &accepted), NedSuggestionStatus::Accepted);
    assert_eq!(status_of(&host, &rejected), NedSuggestionStatus::Rejected);
    assert_eq!(status_of(&host, &open), NedSuggestionStatus::Pending);
}

#[test]
fn the_schema_of_a_page_leads_back_to_it() {
    let host = routed_site();
    let there_and_back = |page: &str| {
        let schema = host.conductor.schema_url_for_page(page).unwrap();
        host.conductor.page_url_for_schema(&schema)
    };
    assert_eq!(there_and_back("/").as_deref(), Some("/"));
    assert_eq!(there_and_back("/post/").as_deref(), Some("/post/"));
    assert_eq!(there_and_back("/post/foo").as_deref(), Some("/post/"));
}

#[test]
fn a_link_without_a_title_is_named_by_its_url() {
    assert_eq!(link_title(Some("Hello"), "/post/hello"), "Hello");
    assert_eq!(link_title(None, "/post/hello"), "hello");
}

#[test]
fn changed_documents_are_listed_as_they_were_written() {
    let mut host = two_post_conductor();
    let file = "content//post/first.md".to_string();
    let store = host.take_store();
    host.conductor.on_modified(&file, SlotConsumer::Edit, Ok(store));
    host.handle(Command::DocumentChanged {
        path: format!("{SITE}/./content//post/second.md"),
        text: "# Second\n".to_string(),
    });
    host.handle(Command::DocumentChanged {
        path: full("content/post/second.md"),
        text: "# Second again\n".to_string(),
    });
    assert_eq!(
        host.respond(Command::GetDirtyBuffers),
        Response::DirtyBuffers(vec![file.clone(), "content//post/second.md".to_string()])
    );
    assert!(matches!(host.respond(Command::SaveAllBuffers), Response::Done));
    assert!(host.files.contains_key(&format!("{SITE}/{file}")));
    assert_eq!(host.files[&format!("{SITE}/./content//post/second.md")], "# Second again\n");
    assert_eq!(host.respond(Command::GetDirtyBuffers), Response::DirtyBuffers(vec![]));
}

#[test]
fn loaded_ned_suggestions_are_found_by_their_ids() {
    let mut conductor = Conductor::new(SITE);
    conductor.load_ned_suggestions(vec![
        ned_suggestion("a", "content/a.md", NedSuggestionStatus::Pending),
        ned_suggestion("b", "content/b.md", NedSuggestionStatus::Rejected),
        ned_suggestion("a", "content/c.md", NedSuggestionStatus::Pending),
    ]);
    assert_eq!(conductor.ned_suggestions.len(), 2);
    for id in ["a", "b"] {
        assert_eq!(conductor.ned_suggestions.get(&id.to_string()).unwrap().id.0, id);
    }
}
