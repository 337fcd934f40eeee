//! How changed documents are saved.

use vstd::prelude::*;

use crate::conductor::{Buffer, Conductor};
use crate::loading;
use crate::path;
use crate::path::{join_path, path_lies_under, text_behind, SitePath};
use crate::populate;
use crate::protocol::CommandResult;
use crate::ranked;
use crate::ranked::ranked_set;
use crate::self_write_tracker;
use crate::self_write_tracker::Write;
use crate::site::{all_together, together};
use crate::steps::{AfterWrite, Contents, FileWrite, Step, WriteOutcome, WriteTask};
use crate::table;
use crate::text;

verus! {

/// The files that are to be written, each with what it is to hold.
pub open spec fn file_views(files: Seq<FileWrite>) -> Seq<(Seq<char>, Contents)> {
    files.map_values(|f: FileWrite| (f.path@, f.contents))
}

/// What saving one document starts with. A document that a program changed is
/// written from the store; otherwise the text that an editor holds is.
pub open spec fn starts_save(c: Conductor, p: Seq<char>, r: Step) -> bool {
    let full = path::path_join(c.site_dir@, p);
    if c.dirty_docs@.contains_key(path::components_of(p)) {
        match table::found(c.path_to_doc_root@, path::components_of(p)) {
            Some(root) => {
                &&& r matches Step::Write(task)
                &&& file_views(task.files@) == seq![(full, Contents::Document(root))]
                &&& task.next matches AfterWrite::Document { path }
                &&& path@ == p
            },
            None => r.fails("document not in store: "@ + p),
        }
    } else {
        match table::found(c.doc_sources@, path::components_of(full)) {
            Some(own) => {
                &&& r matches Step::Write(task)
                &&& file_views(task.files@) == seq![(full, Contents::Text(own.text))]
                &&& task.next matches AfterWrite::Buffer { path }
                &&& path@ == full
            },
            None => r.fails("buffer not dirty: "@ + p),
        }
    }
}

/// The files of the given documents that are in the store.
pub open spec fn saved_documents(c: Conductor, paths: Seq<Seq<Seq<char>>>) -> Seq<
    (Seq<char>, Contents),
>
    decreases paths.len(),
{
    if paths.len() == 0 {
        seq![]
    } else {
        let rest = saved_documents(c, paths.drop_last());
        match table::found(c.path_to_doc_root@, paths.last()) {
            Some(root) => rest.push(
                (
                    path::path_join(c.site_dir@, c.dirty_docs@[paths.last()]),
                    Contents::Document(root),
                ),
            ),
            None => rest,
        }
    }
}

/// Those of the given documents that are in the store.
pub open spec fn stored_documents(c: Conductor, paths: Seq<Seq<Seq<char>>>) -> Seq<Seq<Seq<char>>>
    decreases paths.len(),
{
    if paths.len() == 0 {
        seq![]
    } else {
        let rest = stored_documents(c, paths.drop_last());
        match table::found(c.path_to_doc_root@, paths.last()) {
            Some(_) => rest.push(paths.last()),
            None => rest,
        }
    }
}

/// The files of the texts that editors hold.
pub open spec fn saved_buffers(entries: Seq<(Seq<Seq<char>>, Buffer)>) -> Seq<
    (Seq<char>, Contents),
> {
    entries.map_values(|e: (Seq<Seq<char>>, Buffer)| (e.1.path@, Contents::Text(e.1.text)))
}

/// Whether the list holds what the set holds, each once.
pub open spec fn lists_all(paths: Seq<Seq<Seq<char>>>, all: Set<Seq<Seq<char>>>) -> bool {
    paths.to_set() == all && path::all_distinct(paths)
}

/// What saving everything starts with: the documents that programs changed, in some
/// order, and then the texts that editors hold.
pub open spec fn starts_save_all(c: Conductor, r: Step) -> bool {
    &&& r matches Step::Write(task)
    &&& task.next matches AfterWrite::All { documents, buffers }
    &&& exists|paths: Seq<Seq<Seq<char>>>| #[trigger]
        lists_all(paths, c.dirty_docs@.dom()) && file_views(task.files@) == saved_documents(c, paths)
            + saved_buffers(c.doc_sources@) && path::path_views(documents@) == stored_documents(
            c,
            paths,
        )
    &&& path::path_views(buffers@) == table::keys_of(c.doc_sources@)
}

/// The writes that are kept once the first of the given files were recorded, as far
/// as their modification times are known.
pub open spec fn writes_after(
    writes: Map<Seq<Seq<char>>, Write>,
    files: Seq<FileWrite>,
    times: Seq<Option<i128>>,
    now: u128,
    window: u128,
    n: int,
) -> Map<Seq<Seq<char>>, Write>
    decreases n,
{
    if n <= 0 {
        writes
    } else {
        let rest = writes_after(writes, files, times, now, window, n - 1);
        match times[n - 1] {
            Some(t) => self_write_tracker::recorded(
                rest,
                path::components_of(files[n - 1].path@),
                t,
                now,
                window,
            ),
            None => rest,
        }
    }
}

/// The texts that editors hold without those of the given files.
pub open spec fn without_buffers(
    sources: Seq<(Seq<Seq<char>>, Buffer)>,
    paths: Seq<Seq<Seq<char>>>,
) -> Seq<(Seq<Seq<char>>, Buffer)>
    decreases paths.len(),
{
    if paths.len() == 0 {
        sources
    } else {
        table::without_key(without_buffers(sources, paths.drop_last()), paths.last())
    }
}

/// The file that could not be written, where the first ones were.
pub open spec fn failed_file(files: Seq<FileWrite>, written: nat) -> Seq<char> {
    if written < files.len() {
        files[written as int].path@
    } else {
        ""@
    }
}

/// The documents that were written, where the given number of files were.
pub open spec fn written_documents(documents: Seq<Seq<Seq<char>>>, written: nat) -> Seq<
    Seq<Seq<char>>,
> {
    documents.take(populate::shorter(documents.len(), written))
}

/// What follows once files were written, or could not be. Those that were are
/// recorded. A document that was saved is no longer changed; one that could not be
/// saved still is.
pub open spec fn is_written(
    before: Conductor,
    task: WriteTask,
    outcome: WriteOutcome,
    after: Conductor,
    r: Step,
) -> bool {
    let n = populate::shorter(task.files@.len(), outcome.times@.len());
    &&& after.self_writes@ == writes_after(
        before.self_writes@,
        task.files@,
        outcome.times@,
        outcome.now,
        before.self_writes.window(),
        n,
    )
    &&& after.self_writes.window() == before.self_writes.window()
    &&& match (task.next, outcome.error) {
        (AfterWrite::Document { path }, None) => {
            &&& after.dirty_docs@ == before.dirty_docs@.remove(path::components_of(path@))
            &&& after == (Conductor {
                self_writes: after.self_writes,
                dirty_docs: after.dirty_docs,
                ..before
            })
            &&& r.is_ok()
        },
        (AfterWrite::Buffer { path }, None) => {
            &&& after.doc_sources@ == table::without_key(
                before.doc_sources@,
                path::components_of(path@),
            )
            &&& after == (Conductor {
                self_writes: after.self_writes,
                doc_sources: after.doc_sources,
                ..before
            })
            &&& r.is_ok()
        },
        (AfterWrite::All { documents: _, buffers }, None) => {
            &&& after.doc_sources@ == without_buffers(
                before.doc_sources@,
                path::path_views(buffers@),
            )
            &&& after.dirty_docs@ == Map::<Seq<Seq<char>>, Seq<char>>::empty()
            &&& after == (Conductor {
                self_writes: after.self_writes,
                doc_sources: after.doc_sources,
                dirty_docs: after.dirty_docs,
                ..before
            })
            &&& r.is_ok()
        },
        (AfterWrite::All { documents, buffers: _ }, Some(e)) => {
            &&& after.dirty_docs@ == before.dirty_docs@.remove_keys(
                written_documents(path::path_views(documents@), outcome.times@.len()).to_set(),
            )
            &&& after == (Conductor {
                self_writes: after.self_writes,
                dirty_docs: after.dirty_docs,
                ..before
            })
            &&& r.fails(
                "write error for "@ + failed_file(task.files@, outcome.times@.len()) + ": "@ + e@,
            )
        },
        (_, Some(e)) => {
            &&& after == (Conductor { self_writes: after.self_writes, ..before })
            &&& r.fails("write error: "@ + e@)
        },
    }
}

/// The names, relative to the site, of the texts that editors hold. One that lies
/// elsewhere has none.
pub open spec fn buffer_names(
    entries: Seq<(Seq<Seq<char>>, Buffer)>,
    root: Seq<Seq<char>>,
) -> Seq<Seq<char>>
    decreases entries.len(),
{
    if entries.len() == 0 {
        seq![]
    } else {
        let rest = buffer_names(entries.drop_last(), root);
        let (p, own) = entries.last();
        if path::lies_under(p, root) {
            rest.push(path::rest_of(own.path@, root.len() as int))
        } else {
            rest
        }
    }
}

/// How the given documents were marked as changed.
pub open spec fn marked_names(
    docs: Map<Seq<Seq<char>>, Seq<char>>,
    paths: Seq<Seq<Seq<char>>>,
) -> Seq<Seq<char>> {
    paths.map_values(|p: Seq<Seq<char>>| docs[p])
}

/// Whether a document was changed since it was last saved, by a program or in an
/// editor, and is named so relative to the site.
pub open spec fn is_changed(c: Conductor, name: Seq<char>) -> bool {
    ||| exists|p: Seq<Seq<char>>| #[trigger]
        c.dirty_docs@.contains_key(p) && name == c.dirty_docs@[p]
    ||| buffer_names(c.doc_sources@, path::components_of(c.site_dir@)).contains(name)
}

impl Conductor {
    /// The documents that were changed since they were last saved, relative to the
    /// site, sorted, each once.
    pub fn get_dirty_buffers(&self) -> (r: Vec<String>)
        ensures
            ranked::in_rank::<String>(text::texts(r@)),
            forall|name: Seq<char>| #[trigger]
                text::texts(r@).contains(name) <==> is_changed(*self, name),
    {
        let mut out: Vec<String> = Vec::new();
        let dirty = self.dirty_docs.iter();
        let ghost paths = path::path_views(dirty@);
        let ghost docs = self.dirty_docs@;
        let mut i: usize = 0;
        proof {
            assert(text::texts(out@) =~= marked_names(docs, paths.take(0)));
        }
        while i < dirty.len()
            invariant
                i <= dirty.len(),
                paths == path::path_views(dirty@),
                forall|k: int|
                    0 <= k < dirty@.len() ==> (#[trigger] dirty@[k]).written() == docs[dirty@[k]@],
                text::texts(out@) == marked_names(docs, paths.take(i as int)),
            decreases dirty.len() - i,
        {
            proof {
                assert(paths[i as int] == dirty@[i as int]@);
            }
            let ghost before = out@;
            let name = dirty[i].as_str().to_owned();
            out.push(name);
            proof {
                assert(text::texts(out@) =~= text::texts(before).push(name@));
                assert(marked_names(docs, paths.take(i + 1)) =~= marked_names(
                    docs,
                    paths.take(i as int),
                ).push(name@));
            }
            i += 1;
        }
        proof {
            assert(paths.take(i as int) =~= paths);
        }
        let root = SitePath::new(self.site_dir.as_str());
        let parts = root.components();
        let depth: usize = parts.len();
        let ghost all = self.doc_sources@;
        let mut k: usize = 0;
        proof {
            assert(all.take(0) =~= seq![]);
            assert(text::texts(out@) =~= marked_names(docs, paths) + buffer_names(all.take(0), root@));
            assert(text::texts(parts@).len() == parts@.len());
        }
        while k < self.doc_sources.len()
            invariant
                k <= self.doc_sources@.len(),
                all == self.doc_sources@,
                depth == root@.len(),
                text::texts(out@) == marked_names(docs, paths) + buffer_names(
                    all.take(k as int),
                    root@,
                ),
            decreases self.doc_sources@.len() - k,
        {
            let key = &self.doc_sources.entry(k).0;
            let own = &self.doc_sources.entry(k).1;
            proof {
                assert(all.take(k + 1).drop_last() =~= all.take(k as int));
                assert(all.take(k + 1).last() == (key@, *own));
            }
            if path_lies_under(key, &root) {
                let ghost before = out@;
                let name = text_behind(&SitePath::new(own.path.as_str()), depth);
                out.push(name);
                proof {
                    assert(text::texts(out@) =~= text::texts(before).push(name@));
                    assert(text::texts(out@) =~= marked_names(docs, paths) + buffer_names(
                        all.take(k + 1),
                        root@,
                    ));
                }
            }
            k += 1;
        }
        proof {
            assert(all.take(k as int) =~= all);
            assert(ranked::views(out@) =~= text::texts(out@));
        }
        let ghost listed = text::texts(out@);
        let names = ranked_set(out);
        proof {
            assert(ranked::views(names@) =~= text::texts(names@));
            let buffers = buffer_names(all, root@);
            let plain = marked_names(docs, paths);
            assert forall|name: Seq<char>| #[trigger]
                text::texts(names@).contains(name) <==> is_changed(*self, name) by {
                assert(text::texts(names@).contains(name) <==> text::texts(names@).to_set().contains(
                    name,
                ));
                assert(listed.contains(name) <==> listed.to_set().contains(name));
                if listed.contains(name) {
                    let at = choose|at: int| 0 <= at < listed.len() && listed[at] == name;
                    if at < plain.len() {
                        assert(plain[at] == name);
                        assert(paths.to_set().contains(paths[at]));
                        assert(self.dirty_docs@.contains_key(paths[at]));
                    } else {
                        assert(buffers[at - plain.len()] == name);
                    }
                }
                if is_changed(*self, name) {
                    if buffers.contains(name) {
                        let at = choose|at: int| 0 <= at < buffers.len() && buffers[at] == name;
                        assert(listed[plain.len() + at] == name);
                    } else {
                        let p = choose|p: Seq<Seq<char>>| #[trigger]
                            self.dirty_docs@.contains_key(p) && name == self.dirty_docs@[p];
                        assert(paths.to_set().contains(p));
                        let at = choose|at: int| 0 <= at < paths.len() && paths[at] == p;
                        assert(plain[at] == name);
                        assert(listed[at] == name);
                    }
                }
            }
        }
        names
    }

    /// Save one document.
    pub fn save_buffer(&self, path: &str) -> (r: Step)
        ensures
            starts_save(*self, path@, r),
    {
        let name = SitePath::new(path);
        let full = join_path(self.site_dir.as_str(), path);
        let mut files: Vec<FileWrite> = Vec::new();
        if self.dirty_docs.contains(&name) {
            match self.path_to_doc_root.get(&name) {
                None => Step::Done(
                    CommandResult::error(together("document not in store: ", path)),
                ),
                Some(root) => {
                    files.push(FileWrite { path: full, contents: Contents::Document(*root) });
                    proof {
                        assert(file_views(files@) =~= seq![
                            (full@, Contents::Document(*root)),
                        ]);
                    }
                    Step::Write(
                        WriteTask { files, next: AfterWrite::Document { path: path.to_owned() } },
                    )
                },
            }
        } else {
            match self.doc_sources.get(&SitePath::new(full.as_str())) {
                None => Step::Done(CommandResult::error(together("buffer not dirty: ", path))),
                Some(own) => {
                    files.push(
                        FileWrite {
                            path: full.clone(),
                            contents: Contents::Text(own.text.clone()),
                        },
                    );
                    proof {
                        assert(file_views(files@) =~= seq![(full@, Contents::Text(own.text))]);
                    }
                    Step::Write(WriteTask { files, next: AfterWrite::Buffer { path: full } })
                },
            }
        }
    }

    /// The files of the documents that programs changed, as far as they are in the
    /// store, and the documents themselves.
    fn document_files(&self, dirty: &Vec<SitePath>) -> (r: (Vec<FileWrite>, Vec<SitePath>))
        requires
            forall|k: int|
                0 <= k < dirty@.len() ==> (#[trigger] dirty@[k]).written()
                    == self.dirty_docs@[dirty@[k]@],
        ensures
            file_views(r.0@) == saved_documents(*self, path::path_views(dirty@)),
            path::path_views(r.1@) == stored_documents(*self, path::path_views(dirty@)),
    {
        let ghost paths = path::path_views(dirty@);
        let mut files: Vec<FileWrite> = Vec::new();
        let mut documents: Vec<SitePath> = Vec::new();
        let mut i: usize = 0;
        proof {
            assert(paths.take(0) =~= seq![]);
            assert(file_views(files@) =~= saved_documents(*self, paths.take(0)));
            assert(path::path_views(documents@) =~= stored_documents(*self, paths.take(0)));
        }
        while i < dirty.len()
            invariant
                i <= dirty.len(),
                paths == path::path_views(dirty@),
                forall|k: int|
                    0 <= k < dirty@.len() ==> (#[trigger] dirty@[k]).written()
                        == self.dirty_docs@[dirty@[k]@],
                file_views(files@) == saved_documents(*self, paths.take(i as int)),
                path::path_views(documents@) == stored_documents(*self, paths.take(i as int)),
            decreases dirty.len() - i,
        {
            proof {
                assert(paths.take(i + 1).drop_last() =~= paths.take(i as int));
                assert(paths.take(i + 1).last() == dirty@[i as int]@);
            }
            if let Some(root) = self.path_to_doc_root.get(&dirty[i]) {
                let full = join_path(self.site_dir.as_str(), dirty[i].as_str());
                let ghost before = files@;
                let ghost known = documents@;
                files.push(FileWrite { path: full, contents: Contents::Document(*root) });
                documents.push(dirty[i].clone());
                proof {
                    assert(file_views(files@) =~= file_views(before).push(
                        (full@, Contents::Document(*root)),
                    ));
                    assert(path::path_views(documents@) =~= path::path_views(known).push(
                        dirty@[i as int]@,
                    ));
                }
            }
            i += 1;
        }
        proof {
            assert(paths.take(i as int) =~= paths);
        }
        (files, documents)
    }

    /// Save everything.
    pub fn save_all_buffers(&self) -> (r: Step)
        ensures
            starts_save_all(*self, r),
    {
        let dirty = self.dirty_docs.iter();
        let ghost paths = path::path_views(dirty@);
        let (mut files, documents) = self.document_files(&dirty);
        let ghost first = file_views(files@);
        let ghost all = self.doc_sources@;
        let mut buffers: Vec<SitePath> = Vec::new();
        let mut i: usize = 0;
        proof {
            assert(file_views(files@) =~= first + saved_buffers(all).take(0));
            assert(path::path_views(buffers@) =~= table::keys_of(all).take(0));
        }
        while i < self.doc_sources.len()
            invariant
                i <= self.doc_sources@.len(),
                all == self.doc_sources@,
                file_views(files@) == first + saved_buffers(all).take(i as int),
                path::path_views(buffers@) == table::keys_of(all).take(i as int),
            decreases self.doc_sources@.len() - i,
        {
            let key = &self.doc_sources.entry(i).0;
            let own = &self.doc_sources.entry(i).1;
            let ghost before = files@;
            let ghost known = buffers@;
            files.push(
                FileWrite { path: own.path.clone(), contents: Contents::Text(own.text.clone()) },
            );
            buffers.push(key.clone());
            proof {
                assert(all[i as int] == (key@, *own));
                assert(file_views(files@) =~= file_views(before).push(
                    (own.path@, Contents::Text(own.text)),
                ));
                assert(saved_buffers(all).take(i + 1) =~= saved_buffers(all).take(i as int).push(
                    saved_buffers(all)[i as int],
                ));
                assert(file_views(files@) =~= first + saved_buffers(all).take(i + 1));
                assert(path::path_views(buffers@) =~= path::path_views(known).push(key@));
                assert(path::path_views(buffers@) =~= table::keys_of(all).take(i + 1));
            }
            i += 1;
        }
        proof {
            assert(saved_buffers(all).take(i as int) =~= saved_buffers(all));
            assert(table::keys_of(all).take(i as int) =~= table::keys_of(all));
            assert(lists_all(paths, self.dirty_docs@.dom()));
        }
        Step::Write(WriteTask { files, next: AfterWrite::All { documents, buffers } })
    }

    /// Record the files that were written.
    fn record_writes(&mut self, files: &Vec<FileWrite>, times: &Vec<Option<i128>>, now: u128)
        ensures
            final(self).self_writes@ == writes_after(
                old(self).self_writes@,
                files@,
                times@,
                now,
                old(self).self_writes.window(),
                populate::shorter(files@.len(), times@.len()),
            ),
            final(self).self_writes.window() == old(self).self_writes.window(),
            *final(self) == (Conductor { self_writes: final(self).self_writes, ..*old(self) }),
    {
        let mut i: usize = 0;
        while i < files.len() && i < times.len()
            invariant
                i <= files.len(),
                i <= times.len(),
                self.self_writes@ == writes_after(
                    old(self).self_writes@,
                    files@,
                    times@,
                    now,
                    old(self).self_writes.window(),
                    i as int,
                ),
                self.self_writes.window() == old(self).self_writes.window(),
                *self == (Conductor { self_writes: self.self_writes, ..*old(self) }),
            decreases files.len() - i,
        {
            if let Some(time) = times[i] {
                self.self_writes.record(SitePath::new(files[i].path.as_str()), time, now);
            }
            i += 1;
        }
    }

    /// The first of the given documents were written: they are no longer changed.
    fn clear_written(&mut self, documents: &Vec<SitePath>, written: usize)
        ensures
            final(self).dirty_docs@ == old(self).dirty_docs@.remove_keys(
                written_documents(path::path_views(documents@), written as nat).to_set(),
            ),
            *final(self) == (Conductor { dirty_docs: final(self).dirty_docs, ..*old(self) }),
    {
        let ghost paths = path::path_views(documents@);
        let ghost start = self.dirty_docs@;
        let mut i: usize = 0;
        proof {
            assert(paths.take(0).to_set() =~= Set::empty());
            assert(start.remove_keys(paths.take(0).to_set()) =~= start);
        }
        while i < documents.len() && i < written
            invariant
                i <= documents.len(),
                i <= written,
                paths == path::path_views(documents@),
                self.dirty_docs@ == start.remove_keys(paths.take(i as int).to_set()),
                *self == (Conductor { dirty_docs: self.dirty_docs, ..*old(self) }),
            decreases documents.len() - i,
        {
            self.dirty_docs.clear(&documents[i]);
            proof {
                let more = paths.take(i + 1);
                assert(more =~= paths.take(i as int).push(paths[i as int]));
                assert forall|p: Seq<Seq<char>>| more.contains(p) <==> (paths.take(
                    i as int,
                ).contains(p) || p == paths[i as int]) by {
                    if more.contains(p) {
                        let k = choose|k: int| 0 <= k < more.len() && more[k] == p;
                        if k < i {
                            assert(paths.take(i as int)[k] == p);
                        }
                    }
                    if paths.take(i as int).contains(p) {
                        let k = choose|k: int| 0 <= k < i && paths.take(i as int)[k] == p;
                        assert(more[k] == p);
                    }
                    assert(more[i as int] == paths[i as int]);
                }
                assert(self.dirty_docs@ =~= start.remove_keys(more.to_set()));
            }
            i += 1;
        }
    }

    /// Files were written, or could not be.
    pub fn on_written(&mut self, task: WriteTask, outcome: WriteOutcome) -> (r: Step)
        ensures
            is_written(*old(self), task, outcome, *final(self), r),
    {
        self.record_writes(&task.files, &outcome.times, outcome.now);
        match (task.next, outcome.error) {
            (AfterWrite::Document { path }, None) => {
                self.dirty_docs.clear(&SitePath::new(path.as_str()));
                Step::Done(CommandResult::ok())
            },
            (AfterWrite::Buffer { path }, None) => {
                self.doc_sources.remove(&SitePath::new(path.as_str()));
                Step::Done(CommandResult::ok())
            },
            (AfterWrite::All { documents: _, buffers }, None) => {
                let ghost start = self.doc_sources@;
                let ghost paths = path::path_views(buffers@);
                let mut i: usize = 0;
                proof {
                    assert(paths.take(0) =~= seq![]);
                }
                while i < buffers.len()
                    invariant
                        i <= buffers.len(),
                        paths == path::path_views(buffers@),
                        self.doc_sources@ == without_buffers(start, paths.take(i as int)),
                        *self == (Conductor {
                            self_writes: self.self_writes,
                            doc_sources: self.doc_sources,
                            ..*old(self)
                        }),
                        self.self_writes@ == writes_after(
                            old(self).self_writes@,
                            task.files@,
                            outcome.times@,
                            outcome.now,
                            old(self).self_writes.window(),
                            populate::shorter(task.files@.len(), outcome.times@.len()),
                        ),
                        self.self_writes.window() == old(self).self_writes.window(),
                    decreases buffers.len() - i,
                {
                    proof {
                        assert(paths.take(i + 1).drop_last() =~= paths.take(i as int));
                        assert(paths.take(i + 1).last() == buffers@[i as int]@);
                    }
                    self.doc_sources.remove(&buffers[i]);
                    i += 1;
                }
                proof {
                    assert(paths.take(i as int) =~= paths);
                }
                let _ = self.dirty_docs.take();
                Step::Done(CommandResult::ok())
            },
            (AfterWrite::All { documents, buffers: _ }, Some(e)) => {
                let n: usize = outcome.times.len();
                self.clear_written(&documents, n);
                let failed = if n < task.files.len() {
                    task.files[n].path.as_str()
                } else {
                    ""
                };
                let mut message = all_together("write error for ", failed, ": ");
                message.append(e.as_str());
                Step::Done(CommandResult::error(message))
            },
            (AfterWrite::Document { path: _ }, Some(e)) => Step::Done(
                CommandResult::error(together("write error: ", e.as_str())),
            ),
            (AfterWrite::Buffer { path: _ }, Some(e)) => Step::Done(
                CommandResult::error(together("write error: ", e.as_str())),
            ),
        }
    }
}

/// What is left once texts were removed is none of them, and was there before.
proof fn lemma_without_buffers(
    sources: Seq<(Seq<Seq<char>>, Buffer)>,
    paths: Seq<Seq<Seq<char>>>,
    k: int,
)
    requires
        0 <= k < without_buffers(sources, paths).len(),
    ensures
        !paths.contains(without_buffers(sources, paths)[k].0),
        sources.contains(without_buffers(sources, paths)[k]),
    decreases paths.len(),
{
    if paths.len() > 0 {
        let front = paths.drop_last();
        let rest = without_buffers(sources, front);
        let left = without_buffers(sources, paths);
        table::lemma_without_key(rest, paths.last());
        table::lemma_kept_was_there(rest, paths.last(), k);
        let at = choose|at: int| 0 <= at < rest.len() && rest[at] == left[k];
        lemma_without_buffers(sources, front, at);
        if paths.contains(left[k].0) {
            let i = choose|i: int| 0 <= i < paths.len() && paths[i] == left[k].0;
            if i < front.len() {
                assert(front[i] == left[k].0);
            }
        }
    }
}

/// A text of the site that an editor holds has a name.
pub proof fn lemma_buffer_is_named(
    entries: Seq<(Seq<Seq<char>>, Buffer)>,
    root: Seq<Seq<char>>,
    at: int,
)
    requires
        0 <= at < entries.len(),
        path::lies_under(entries[at].0, root),
    ensures
        buffer_names(entries, root).contains(
            path::rest_of(entries[at].1.path@, root.len() as int),
        ),
    decreases entries.len(),
{
    let front = entries.drop_last();
    let rest = buffer_names(front, root);
    let all = buffer_names(entries, root);
    let name = path::rest_of(entries[at].1.path@, root.len() as int);
    if at == front.len() {
        assert(all[rest.len() as int] == name);
    } else {
        lemma_buffer_is_named(front, root, at);
        let i = choose|i: int| 0 <= i < rest.len() && rest[i] == name;
        assert(all[i] == name);
    }
}

/// Once everything was saved, no document counts as changed.
pub proof fn law_saved_all_is_clean(
    before: Conductor,
    task: WriteTask,
    outcome: WriteOutcome,
    after: Conductor,
    r: Step,
    name: Seq<char>,
)
    requires
        starts_save_all(before, Step::Write(task)),
        outcome.error is None,
        is_written(before, task, outcome, after, r),
    ensures
        !is_changed(after, name),
{
    let sources = before.doc_sources@;
    let keys = table::keys_of(sources);
    if after.doc_sources@.len() > 0 {
        lemma_without_buffers(sources, keys, 0);
        let left = after.doc_sources@[0];
        let at = choose|at: int| 0 <= at < sources.len() && sources[at] == left;
        assert(keys[at] == left.0);
    }
    let root = path::components_of(after.site_dir@);
    assert(buffer_names(after.doc_sources@, root) =~= seq![]);
}

/// Where not everything could be saved, the documents that a program changed still
/// count as changed, but for those that were written.
pub proof fn law_unsaved_documents_stay_changed(
    before: Conductor,
    task: WriteTask,
    outcome: WriteOutcome,
    after: Conductor,
    r: Step,
    p: Seq<Seq<char>>,
)
    requires
        starts_save_all(before, Step::Write(task)),
        outcome.error is Some,
        is_written(before, task, outcome, after, r),
        before.dirty_docs@.contains_key(p),
    ensures
        after.dirty_docs@.contains_key(p) <==> !written_documents(
            path::path_views(task.next->documents@),
            outcome.times@.len(),
        ).contains(p),
{
}

/// A document that could be saved no longer counts as changed by a program; one that
/// could not still does.
pub proof fn law_saved_document_is_clean(
    before: Conductor,
    p: Seq<char>,
    task: WriteTask,
    outcome: WriteOutcome,
    after: Conductor,
    r: Step,
)
    requires
        before.dirty_docs@.contains_key(path::components_of(p)),
        starts_save(before, p, Step::Write(task)),
        is_written(before, task, outcome, after, r),
    ensures
        after.dirty_docs@.contains_key(path::components_of(p)) <==> outcome.error is Some,
{
}

/// A text that could be saved is no longer held; one that could not still is.
pub proof fn law_saved_text_is_not_held(
    before: Conductor,
    p: Seq<char>,
    task: WriteTask,
    outcome: WriteOutcome,
    after: Conductor,
    r: Step,
)
    requires
        !before.dirty_docs@.contains_key(path::components_of(p)),
        starts_save(before, p, Step::Write(task)),
        is_written(before, task, outcome, after, r),
    ensures
        table::has_key(
            after.doc_sources@,
            path::components_of(path::path_join(before.site_dir@, p)),
        ) <==> outcome.error is Some,
{
    let key = path::components_of(path::path_join(before.site_dir@, p));
    table::law_removed_key_is_gone(before.doc_sources@, key);
}

/// Shortly after the conductor wrote a file, a change of that file is taken for one
/// from outside exactly where its modification time is another.
pub proof fn law_own_write_is_not_external(
    before: Conductor,
    task: WriteTask,
    outcome: WriteOutcome,
    after: Conductor,
    r: Step,
    time: i128,
    name: Seq<char>,
    event_time: i128,
    later: u128,
)
    requires
        task.files@.len() == 1,
        outcome.times@.len() == 1,
        outcome.times@[0] == Some(time),
        is_written(before, task, outcome, after, r),
        path::components_of(path::path_join(before.site_dir@, name)) == path::components_of(
            task.files@[0].path@,
        ),
        self_write_tracker::elapsed(later, outcome.now) < before.self_writes.window(),
    ensures
        loading::is_external(after, name, Some(event_time), later) <==> event_time != time,
{
    let file = path::components_of(task.files@[0].path@);
    let window = before.self_writes.window();
    assert(writes_after(
        before.self_writes@,
        task.files@,
        outcome.times@,
        outcome.now,
        window,
        0,
    ) == before.self_writes@);
    self_write_tracker::law_recorded_write_is_ignored(
        before.self_writes@,
        file,
        time,
        outcome.now,
        window,
        event_time,
        later,
    );
}

/// A changed document is written to its file from the store, a held text as it is; what
/// has neither changed nor is held is not written.
pub proof fn law_what_is_saved(c: Conductor, p: Seq<char>, r: Step)
    requires
        starts_save(c, p, r),
    ensures
        c.dirty_docs@.contains_key(path::components_of(p)) ==> match table::found(
            c.path_to_doc_root@,
            path::components_of(p),
        ) {
            Some(root) => {
                &&& r is Write
                &&& r->Write_0.files@.len() == 1
                &&& r->Write_0.files@[0].path@ == path::path_join(c.site_dir@, p)
                &&& r->Write_0.files@[0].contents == Contents::Document(root)
            },
            None => r is Done,
        },
        !c.dirty_docs@.contains_key(path::components_of(p)) ==> match table::found(
            c.doc_sources@,
            path::components_of(path::path_join(c.site_dir@, p)),
        ) {
            Some(own) => {
                &&& r is Write
                &&& r->Write_0.files@.len() == 1
                &&& r->Write_0.files@[0].path@ == path::path_join(c.site_dir@, p)
                &&& r->Write_0.files@[0].contents == Contents::Text(own.text)
            },
            None => r is Done,
        },
{
    if r is Write {
        let views = file_views(r->Write_0.files@);
        assert(views.len() == 1);
        assert(views[0] == (r->Write_0.files@[0].path@, r->Write_0.files@[0].contents));
    }
}

/// To save all writes every changed document that the store has.
pub proof fn law_all_changed_documents_are_saved(
    c: Conductor,
    paths: Seq<Seq<Seq<char>>>,
    p: Seq<Seq<char>>,
    root: crate::node_store::NodeId,
)
    requires
        paths.contains(p),
        table::found(c.path_to_doc_root@, p) == Some(root),
    ensures
        saved_documents(c, paths).contains(
            (path::path_join(c.site_dir@, c.dirty_docs@[p]), Contents::Document(root)),
        ),
        stored_documents(c, paths).contains(p),
    decreases paths.len(),
{
    let front = paths.drop_last();
    let all = saved_documents(c, paths);
    let rest = saved_documents(c, front);
    let stored = stored_documents(c, paths);
    let before = stored_documents(c, front);
    let pair = (path::path_join(c.site_dir@, c.dirty_docs@[p]), Contents::Document(root));
    if paths.last() == p {
        assert(all[rest.len() as int] == pair);
        assert(stored[before.len() as int] == p);
    } else {
        let k = choose|k: int| 0 <= k < paths.len() && paths[k] == p;
        assert(front[k] == p);
        law_all_changed_documents_are_saved(c, front, p, root);
        let i = choose|i: int| 0 <= i < rest.len() && rest[i] == pair;
        assert(all[i] == pair);
        let j = choose|j: int| 0 <= j < before.len() && before[j] == p;
        assert(stored[j] == p);
    }
}

/// The texts that are held in the site are listed by their names there.
pub proof fn law_held_texts_are_listed(
    entries: Seq<(Seq<Seq<char>>, Buffer)>,
    root: Seq<Seq<char>>,
    name: Seq<char>,
)
    ensures
        buffer_names(entries, root).contains(name) <==> exists|k: int|
            0 <= k < entries.len() && root.is_prefix_of((#[trigger] entries[k]).0)
                && path::rest_of(entries[k].1.path@, root.len() as int) == name,
    decreases entries.len(),
{
    if entries.len() > 0 {
        let front = entries.drop_last();
        let rest = buffer_names(front, root);
        let all = buffer_names(entries, root);
        law_held_texts_are_listed(front, root, name);
        let last = entries.len() - 1;
        assert(entries[last] == entries.last());
        if rest.contains(name) {
            let i = choose|i: int| 0 <= i < rest.len() && rest[i] == name;
            assert(all[i] == name);
            let k = choose|k: int|
                0 <= k < front.len() && root.is_prefix_of((#[trigger] front[k]).0) && path::rest_of(
                    front[k].1.path@,
                    root.len() as int,
                ) == name;
            assert(entries[k] == front[k]);
        }
        if all.len() > rest.len() {
            assert(all[rest.len() as int] == path::rest_of(
                entries.last().1.path@,
                root.len() as int,
            ));
            if all.contains(name) && !rest.contains(name) {
                let i = choose|i: int| 0 <= i < all.len() && all[i] == name;
                if i < rest.len() {
                    assert(rest[i] == name);
                }
                assert(root.is_prefix_of(entries[last].0));
            }
        }
        if exists|k: int|
            0 <= k < entries.len() && root.is_prefix_of((#[trigger] entries[k]).0)
                && path::rest_of(entries[k].1.path@, root.len() as int) == name {
            let k = choose|k: int|
                0 <= k < entries.len() && root.is_prefix_of((#[trigger] entries[k]).0)
                    && path::rest_of(entries[k].1.path@, root.len() as int) == name;
            if k < last {
                assert(front[k] == entries[k]);
            }
        }
    }
}

/// The file that failed is the first that was not written; where all were, there is none.
pub proof fn law_failed_file_is_the_first_unwritten(files: Seq<FileWrite>, k: int)
    ensures
        0 <= k < files.len() ==> failed_file(files, k as nat) == files[k].path@,
        failed_file(files, files.len()).len() == 0,
{
    reveal_strlit("");
}

} // verus!
