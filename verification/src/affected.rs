//! Which pages have to be rendered again when files were changed.

use vstd::prelude::*;

use crate::conductor::Conductor;
use crate::dep_graph;
use crate::dep_graph::DependencyGraph;
use crate::node_store;
use crate::node_store::find_attr_text;
use crate::path;
use crate::path::{join_path, SitePath};
use crate::rebuild;
use crate::rebuild::{PageJob, PageJobView};
use crate::table;
use crate::text;

verus! {

/// Whether a file is the one that the document at a URL was read from.
pub open spec fn is_own_file(c: Conductor, url: Seq<char>, file: Seq<Seq<char>>) -> bool {
    &&& table::found(c.url_to_root@, url) matches Some(root)
    &&& node_store::attr_text(c.store, root, "file"@) matches Some(name)
    &&& path::components_of(path::path_join(c.site_dir@, name)) == file
}

/// Whether a page depends on a file: the page shows it, or is built from it, or was
/// built from it before.
pub open spec fn depends_on(
    c: Conductor,
    earlier: Map<Seq<Seq<char>>, Set<Seq<Seq<char>>>>,
    url: Seq<char>,
    file: Seq<Seq<char>>,
) -> bool {
    let page = path::components_of(url);
    ||| is_own_file(c, url, file)
    ||| dep_graph::set_under(c.dep_graph@, page).contains(file)
    ||| dep_graph::set_under(earlier, page).contains(file)
}

/// Whether a change of files affects a page: the page depends on one of them, or it
/// is not known what the page is built from.
pub open spec fn is_affected(
    c: Conductor,
    earlier: Map<Seq<Seq<char>>, Set<Seq<Seq<char>>>>,
    url: Seq<char>,
    files: Seq<Seq<char>>,
) -> bool {
    ||| !c.dep_graph@.contains_key(path::components_of(url))
    ||| exists|k: int|
        0 <= k < files.len() && depends_on(
            c,
            earlier,
            url,
            path::components_of(#[trigger] files[k]),
        )
}

/// Those of the first jobs whose pages a change of files affects.
pub open spec fn affected_among(
    c: Conductor,
    earlier: Map<Seq<Seq<char>>, Set<Seq<Seq<char>>>>,
    files: Seq<Seq<char>>,
    jobs: Seq<PageJobView>,
    n: int,
) -> Seq<PageJobView>
    decreases n,
{
    if n <= 0 {
        seq![]
    } else {
        let rest = affected_among(c, earlier, files, jobs, n - 1);
        if is_affected(c, earlier, jobs[n - 1].url, files) {
            rest.push(jobs[n - 1])
        } else {
            rest
        }
    }
}

/// What has to be rendered when files were changed.
pub open spec fn affected_jobs_of(
    c: Conductor,
    earlier: Map<Seq<Seq<char>>, Set<Seq<Seq<char>>>>,
    files: Seq<Seq<char>>,
) -> Seq<PageJobView> {
    let jobs = rebuild::jobs_among(c.store, c.url_to_semantic@);
    affected_among(c, earlier, files, jobs, jobs.len() as int)
}

/// The affected jobs are jobs among the first, none of them twice.
proof fn lemma_affected_among(
    c: Conductor,
    earlier: Map<Seq<Seq<char>>, Set<Seq<Seq<char>>>>,
    files: Seq<Seq<char>>,
    jobs: Seq<PageJobView>,
    n: int,
)
    requires
        0 <= n <= jobs.len(),
    ensures
        forall|job: PageJobView| #[trigger]
            affected_among(c, earlier, files, jobs, n).contains(job) <==> jobs.take(n).contains(job)
                && is_affected(c, earlier, job.url, files),
        rebuild::job_urls(jobs).no_duplicates() ==> rebuild::job_urls(
            affected_among(c, earlier, files, jobs, n),
        ).no_duplicates(),
    decreases n,
{
    let some = affected_among(c, earlier, files, jobs, n);
    if n > 0 {
        lemma_affected_among(c, earlier, files, jobs, n - 1);
        let rest = affected_among(c, earlier, files, jobs, n - 1);
        let known = jobs.take(n - 1);
        let now = jobs.take(n);
        let last = jobs[n - 1];
        assert(now =~= known.push(last));
        assert forall|job: PageJobView| #[trigger] some.contains(job) <==> now.contains(job)
            && is_affected(c, earlier, job.url, files) by {
            assert(rest.contains(job) <==> known.contains(job) && is_affected(
                c,
                earlier,
                job.url,
                files,
            ));
            if now.contains(job) {
                let k = choose|k: int| 0 <= k < now.len() && now[k] == job;
                if k < n - 1 {
                    assert(known[k] == job);
                }
            }
            if known.contains(job) {
                let k = choose|k: int| 0 <= k < known.len() && known[k] == job;
                assert(now[k] == job);
            }
            if some.contains(job) {
                let k = choose|k: int| 0 <= k < some.len() && some[k] == job;
                if k < rest.len() {
                    assert(rest[k] == job);
                }
            }
            if rest.contains(job) {
                let k = choose|k: int| 0 <= k < rest.len() && rest[k] == job;
                assert(some[k] == job);
            }
            assert(now[n - 1] == last);
            if is_affected(c, earlier, last.url, files) {
                assert(some[rest.len() as int] == last);
            }
        }
        if rebuild::job_urls(jobs).no_duplicates() {
            let urls = rebuild::job_urls(some);
            assert forall|i: int, j: int|
                0 <= i < urls.len() && 0 <= j < urls.len() && i != j implies urls[i] != urls[j] by {
                let a = if i < j {
                    i
                } else {
                    j
                };
                let b = if i < j {
                    j
                } else {
                    i
                };
                assert(some[a] == rest[a]);
                if b < rest.len() {
                    assert(rebuild::job_urls(rest)[a] != rebuild::job_urls(rest)[b]);
                } else {
                    assert(rest.contains(rest[a]));
                    let k = choose|k: int| 0 <= k < known.len() && known[k] == rest[a];
                    assert(rebuild::job_urls(jobs)[k] != rebuild::job_urls(jobs)[n - 1]);
                }
            }
        }
    } else {
        assert(jobs.take(0) =~= seq![]);
    }
}

/// When files were changed, a page of the site is rendered exactly where it depends
/// on one of them or it is not known what it is built from.
pub proof fn law_only_affected_pages_are_rendered(
    c: Conductor,
    earlier: Map<Seq<Seq<char>>, Set<Seq<Seq<char>>>>,
    files: Seq<Seq<char>>,
    job: PageJobView,
)
    ensures
        affected_jobs_of(c, earlier, files).contains(job) <==> rebuild::jobs_among(
            c.store,
            c.url_to_semantic@,
        ).contains(job) && is_affected(c, earlier, job.url, files),
{
    let jobs = rebuild::jobs_among(c.store, c.url_to_semantic@);
    lemma_affected_among(c, earlier, files, jobs, jobs.len() as int);
    assert(jobs.take(jobs.len() as int) =~= jobs);
}

impl Conductor {
    /// Whether a page depends on a file.
    fn page_depends_on(&self, earlier: &DependencyGraph, url: &str, file: &str) -> (r: bool)
        ensures
            r == depends_on(*self, earlier@, url@, path::components_of(file@)),
    {
        let page = SitePath::new(url);
        let changed = SitePath::new(file);
        if self.dep_graph.sources_for(&page).contains(&changed) || earlier.sources_for(
            &page,
        ).contains(&changed) {
            return true;
        }
        match self.document_by_url(url) {
            Some(root) => match find_attr_text(&self.store, root, "file") {
                Some(name) => {
                    let full = join_path(self.site_dir.as_str(), name.as_str());
                    SitePath::new(full.as_str()).same_as(&changed)
                },
                None => false,
            },
            None => false,
        }
    }

    /// Whether a change of files affects a page.
    pub fn page_is_affected(&self, earlier: &DependencyGraph, url: &str, files: &Vec<String>) -> (r:
        bool)
        ensures
            r == is_affected(*self, earlier@, url@, text::texts(files@)),
    {
        if !self.dep_graph.has_output(&SitePath::new(url)) {
            return true;
        }
        let ghost names = text::texts(files@);
        let mut i: usize = 0;
        while i < files.len()
            invariant
                i <= files.len(),
                names == text::texts(files@),
                forall|k: int|
                    0 <= k < i ==> !depends_on(
                        *self,
                        earlier@,
                        url@,
                        path::components_of(#[trigger] names[k]),
                    ),
            decreases files.len() - i,
        {
            proof {
                assert(names[i as int] == files@[i as int]@);
            }
            if self.page_depends_on(earlier, url, files[i].as_str()) {
                return true;
            }
            i += 1;
        }
        false
    }

    /// What has to be rendered when files were changed.
    pub fn affected_jobs(&self, earlier: &DependencyGraph, files: &Vec<String>) -> (r: Vec<PageJob>)
        ensures
            rebuild::job_views(r@) == affected_jobs_of(*self, earlier@, text::texts(files@)),
            rebuild::job_urls(rebuild::job_views(r@)).no_duplicates(),
    {
        let all = self.all_jobs();
        let ghost views = rebuild::job_views(all@);
        let ghost names = text::texts(files@);
        let mut out: Vec<PageJob> = Vec::new();
        let mut i: usize = 0;
        proof {
            assert(rebuild::job_views(out@) =~= seq![]);
        }
        while i < all.len()
            invariant
                i <= all.len(),
                views == rebuild::job_views(all@),
                names == text::texts(files@),
                rebuild::job_views(out@) == affected_among(*self, earlier@, names, views, i as int),
            decreases all.len() - i,
        {
            proof {
                assert(views[i as int] == all@[i as int]@);
            }
            if self.page_is_affected(earlier, all[i].url.as_str(), files) {
                let ghost before = out@;
                out.push(all[i].clone());
                proof {
                    assert(rebuild::job_views(out@) =~= rebuild::job_views(before).push(
                        views[i as int],
                    ));
                }
            }
            i += 1;
        }
        proof {
            lemma_affected_among(*self, earlier@, names, views, views.len() as int);
        }
        out
    }
}

/// A page is affected by the change of its own file and of every file that it depends on
/// or did before; a page whose dependencies are not known is always affected, and any
/// other is not.
pub proof fn law_what_affects_a_page(
    c: Conductor,
    earlier: Map<Seq<Seq<char>>, Set<Seq<Seq<char>>>>,
    url: Seq<char>,
    file: Seq<char>,
)
    ensures
        ({
            let page = path::components_of(url);
            let place = path::components_of(file);
            let known = c.dep_graph@.contains_key(page);
            let root = table::found(c.url_to_root@, url);
            let own = root is Some && node_store::attr_text(c.store, root->0, "file"@) is Some
                && path::components_of(
                path::path_join(
                    c.site_dir@,
                    node_store::attr_text(c.store, root->0, "file"@)->0,
                ),
            ) == place;
            is_affected(c, earlier, url, seq![file]) <==> !known || own || c.dep_graph@[page].contains(
                place,
            ) || earlier.contains_key(page) && earlier[page].contains(place)
        }),
        is_affected(c, earlier, url, seq![]) <==> !c.dep_graph@.contains_key(
            path::components_of(url),
        ),
{
    let files = seq![file];
    assert(files[0] == file);
    if is_affected(c, earlier, url, files) && c.dep_graph@.contains_key(path::components_of(url)) {
        let k = choose|k: int|
            0 <= k < files.len() && depends_on(
                c,
                earlier,
                url,
                path::components_of(#[trigger] files[k]),
            );
        assert(files[k] == file);
    }
    if depends_on(c, earlier, url, path::components_of(file)) {
        assert(depends_on(c, earlier, url, path::components_of(files[0])));
    }
}

} // verus!
