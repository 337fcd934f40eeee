//! Paths of files: sequences of components, and sets of them.

use vstd::prelude::*;

use crate::document::same_texts;
use crate::text;
use crate::text::{chars_of, ends_with, same, split, starts_with, text_between};

verus! {

/// Whether a segment at the given place in a path is a component: an empty one
/// is none, and `.` is one only at the start of a relative path.
pub open spec fn is_component(segment: Seq<char>, place: int) -> bool {
    segment.len() > 0 && (segment == "."@ ==> place == 0)
}

/// The components among the first segments of a path.
pub open spec fn components_among(segments: Seq<Seq<char>>, n: int) -> Seq<Seq<char>>
    decreases n,
{
    if n <= 0 {
        seq![]
    } else if is_component(segments[n - 1], n - 1) {
        components_among(segments, n - 1).push(segments[n - 1])
    } else {
        components_among(segments, n - 1)
    }
}

/// The components of a path: the root, if it begins there, and the names along
/// the way. Repeated and trailing separators do not matter.
pub open spec fn components_of(path: Seq<char>) -> Seq<Seq<char>> {
    let segments = text::split_of(path, '/');
    let names = components_among(segments, segments.len() as int);
    if text::begins_with(path, "/"@) {
        seq!["/"@] + names
    } else {
        names
    }
}

/// A path of a file. Two paths are the same where they have the same components.
#[derive(Debug)]
pub struct SitePath {
    text: String,
}

impl View for SitePath {
    type V = Seq<Seq<char>>;

    closed spec fn view(&self) -> Seq<Seq<char>> {
        components_of(self.text@)
    }
}

impl Clone for SitePath {
    fn clone(&self) -> (r: Self)
        ensures
            r@ == self@,
            r.written() == self.written(),
    {
        SitePath { text: self.text.clone() }
    }
}

impl SitePath {
    /// The path as it was written.
    pub closed spec fn written(&self) -> Seq<char> {
        self.text@
    }

    /// The path that is written as given.
    pub fn new(text: &str) -> (r: SitePath)
        ensures
            r.written() == text@,
            r@ == components_of(text@),
    {
        SitePath { text: text.to_owned() }
    }

    /// The path as it was written.
    pub fn as_str(&self) -> (r: &str)
        ensures
            r@ == self.written(),
            components_of(r@) == self@,
    {
        self.text.as_str()
    }

    /// The components of the path.
    pub fn components(&self) -> (r: Vec<String>)
        ensures
            text::texts(r@) == self@,
    {
        path_components(self.text.as_str())
    }

    /// Whether two paths are the same.
    pub fn same_as(&self, other: &SitePath) -> (r: bool)
        ensures
            r == (self@ == other@),
    {
        same_texts(&self.components(), &other.components())
    }
}

/// The components of a path.
pub fn path_components(path: &str) -> (r: Vec<String>)
    ensures
        text::texts(r@) == components_of(path@),
{
    let segments = split(path, '/');
    let ghost views = text::texts(segments@);
    let mut out: Vec<String> = Vec::new();
    if starts_with(path, "/") {
        out.push("/".to_owned());
    }
    let ghost head = text::texts(out@);
    let mut i: usize = 0;
    proof {
        assert(head + components_among(views, 0) =~= head);
    }
    while i < segments.len()
        invariant
            i <= segments.len(),
            views == text::texts(segments@),
            text::texts(out@) == head + components_among(views, i as int),
        decreases segments.len() - i,
    {
        let segment = segments[i].as_str();
        let ghost before = out@;
        proof {
            assert(views[i as int] == segment@);
        }
        if !segment.is_empty() && (i == 0 || !same(segment, ".")) {
            out.push(segment.to_owned());
            proof {
                assert(text::texts(out@) =~= text::texts(before).push(segment@));
            }
        }
        i += 1;
        proof {
            assert(text::texts(out@) =~= head + components_among(views, i as int));
        }
    }
    proof {
        assert(text::texts(out@) =~= components_of(path@));
    }
    out
}

/// The views of a list of paths.
pub open spec fn path_views(paths: Seq<SitePath>) -> Seq<Seq<Seq<char>>> {
    paths.map_values(|p: SitePath| p@)
}

/// A copy of a list of paths.
pub fn clone_paths(paths: &Vec<SitePath>) -> (r: Vec<SitePath>)
    ensures
        path_views(r@) == path_views(paths@),
        names_of(r@) == names_of(paths@),
{
    let mut out: Vec<SitePath> = Vec::new();
    let mut i: usize = 0;
    while i < paths.len()
        invariant
            i <= paths.len(),
            out.len() == i,
            forall|k: int|
                0 <= k < i ==> (#[trigger] out@[k])@ == paths@[k]@ && out@[k].written()
                    == paths@[k].written(),
        decreases paths.len() - i,
    {
        out.push(paths[i].clone());
        i += 1;
    }
    proof {
        assert(path_views(out@) =~= path_views(paths@));
        assert(names_of(out@) =~= names_of(paths@)) by {
            let views = path_views(paths@);
            assert forall|p: Seq<Seq<char>>| views.contains(p) implies out@[views.index_of(
                p,
            )].written() == paths@[views.index_of(p)].written() by {
                let k = views.index_of(p);
                assert(out@[k].written() == paths@[k].written());
            }
        }
    }
    out
}

/// How the paths of a list are written, by their components.
pub open spec fn names_of(paths: Seq<SitePath>) -> Map<Seq<Seq<char>>, Seq<char>> {
    let views = path_views(paths);
    Map::new(
        |p: Seq<Seq<char>>| views.contains(p),
        |p: Seq<Seq<char>>| paths[views.index_of(p)].written(),
    )
}

/// In a list without repetitions each path is the first with its components.
proof fn lemma_own_place(views: Seq<Seq<Seq<char>>>, k: int)
    requires
        all_distinct(views),
        0 <= k < views.len(),
    ensures
        views.index_of(views[k]) == k,
{
    let i = views.index_of(views[k]);
    assert(0 <= i < views.len() && views[i] == views[k]);
    if i < k {
        assert(views[i] != views[k]);
    } else if k < i {
        assert(views[k] != views[i]);
    }
}

/// Whether no two paths of a list are the same.
pub open spec fn all_distinct(views: Seq<Seq<Seq<char>>>) -> bool {
    forall|i: int, j: int| 0 <= i < j < views.len() ==> views[i] != views[j]
}

/// A set of paths.
#[derive(Debug)]
pub struct PathSet {
    paths: Vec<SitePath>,
}

impl View for PathSet {
    type V = Set<Seq<Seq<char>>>;

    closed spec fn view(&self) -> Set<Seq<Seq<char>>> {
        path_views(self.paths@).to_set()
    }
}

impl Default for PathSet {
    fn default() -> (r: Self)
        ensures
            r@ == Set::<Seq<Seq<char>>>::empty(),
    {
        PathSet::new()
    }
}

impl Clone for PathSet {
    fn clone(&self) -> (r: Self)
        ensures
            r@ == self@,
            r.names() == self.names(),
    {
        proof {
            use_type_invariant(self);
        }
        PathSet { paths: clone_paths(&self.paths) }
    }
}

impl PathSet {
    #[verifier::type_invariant]
    spec fn distinct(self) -> bool {
        all_distinct(path_views(self.paths@))
    }

    /// How the paths of the set are written, by their components.
    pub closed spec fn names(&self) -> Map<Seq<Seq<char>>, Seq<char>> {
        names_of(self.paths@)
    }

    /// The set without paths.
    pub fn new() -> (r: PathSet)
        ensures
            r@ == Set::<Seq<Seq<char>>>::empty(),
            r.names() == Map::<Seq<Seq<char>>, Seq<char>>::empty(),
    {
        let paths: Vec<SitePath> = Vec::new();
        proof {
            assert(names_of(paths@) =~= Map::empty());
            assert(path_views(paths@) =~= seq![]);
            assert(path_views(paths@).to_set() =~= Set::empty());
        }
        PathSet { paths }
    }

    /// The place of a path in the list, or its length.
    fn position(&self, path: &SitePath) -> (r: usize)
        ensures
            r <= self.paths@.len(),
            r < self.paths@.len() ==> self.paths@[r as int]@ == path@,
            (r < self.paths@.len()) == self@.contains(path@),
    {
        let mut i: usize = 0;
        while i < self.paths.len()
            invariant
                i <= self.paths.len(),
                forall|k: int| 0 <= k < i ==> (#[trigger] self.paths@[k])@ != path@,
            decreases self.paths.len() - i,
        {
            if self.paths[i].same_as(path) {
                proof {
                    assert(path_views(self.paths@)[i as int] == path@);
                }
                return i;
            }
            i += 1;
        }
        proof {
            let views = path_views(self.paths@);
            assert forall|k: int| 0 <= k < views.len() implies views[k] != path@ by {
                assert(views[k] == self.paths@[k]@);
            }
        }
        i
    }

    /// Whether the set holds the path.
    pub fn contains(&self, path: &SitePath) -> (r: bool)
        ensures
            r == self@.contains(path@),
    {
        self.position(path) < self.paths.len()
    }

    /// Puts a path into the set. One that is in it stays as it was written first.
    pub fn insert(&mut self, path: SitePath)
        ensures
            final(self)@ == old(self)@.insert(path@),
            final(self).names() == (if old(self)@.contains(path@) {
                old(self).names()
            } else {
                old(self).names().insert(path@, path.written())
            }),
    {
        if self.contains(&path) {
            proof {
                assert(self@.insert(path@) =~= self@);
            }
            return;
        }
        proof {
            use_type_invariant(&*self);
        }
        let ghost before = self.paths@;
        let mut paths: Vec<SitePath> = Vec::new();
        std::mem::swap(&mut paths, &mut self.paths);
        paths.push(path);
        proof {
            let views = path_views(before);
            assert(path_views(paths@) =~= views.push(path@));
            lemma_push_set(views, path@);
            assert(!views.to_set().contains(path@));
            assert forall|i: int, j: int| 0 <= i < j < views.push(path@).len() implies views.push(
                path@,
            )[i] != views.push(path@)[j] by {
                if j == views.len() {
                    assert(views.to_set().contains(views[i]));
                }
            }
            lemma_names_with(before, path);
        }
        self.paths = paths;
    }

    /// Takes a path out of the set.
    pub fn remove(&mut self, path: &SitePath)
        ensures
            final(self)@ == old(self)@.remove(path@),
            final(self).names() == old(self).names().remove(path@),
    {
        let at = self.position(path);
        if at == self.paths.len() {
            proof {
                assert(self@.remove(path@) =~= self@);
                assert(self.names().remove(path@) =~= self.names());
            }
            return;
        }
        proof {
            use_type_invariant(&*self);
        }
        let ghost before = self.paths@;
        let mut paths: Vec<SitePath> = Vec::new();
        std::mem::swap(&mut paths, &mut self.paths);
        paths.remove(at);
        proof {
            let views = path_views(before);
            assert(path_views(paths@) =~= views.remove(at as int));
            assert(views[at as int] == path@);
            lemma_remove_set(views, at as int);
            lemma_names_without(before, at as int);
            assert(paths@ =~= before.remove(at as int));
        }
        self.paths = paths;
    }

    /// Whether the set is empty.
    pub fn is_empty(&self) -> (r: bool)
        ensures
            r == (self@ =~= Set::<Seq<Seq<char>>>::empty()),
    {
        proof {
            let views = path_views(self.paths@);
            if views.len() > 0 {
                assert(views.to_set().contains(views[0]));
            } else {
                assert(views.to_set() =~= Set::empty());
            }
        }
        self.paths.len() == 0
    }

    /// The number of paths in the set.
    pub fn len(&self) -> (r: usize)
        ensures
            r == self@.len(),
            self@.finite(),
    {
        proof {
            use_type_invariant(self);
            let views = path_views(self.paths@);
            assert(views.no_duplicates());
            views.unique_seq_to_set();
        }
        self.paths.len()
    }

    /// The paths of the set, each once, in some order.
    pub fn to_vec(&self) -> (r: Vec<SitePath>)
        ensures
            path_views(r@).to_set() == self@,
            all_distinct(path_views(r@)),
            forall|i: int|
                0 <= i < r@.len() ==> (#[trigger] r@[i]).written() == self.names()[r@[i]@],
    {
        proof {
            use_type_invariant(self);
        }
        let out = clone_paths(&self.paths);
        proof {
            let views = path_views(out@);
            assert forall|i: int| 0 <= i < out@.len() implies (#[trigger] out@[i]).written()
                == self.names()[out@[i]@] by {
                assert(views[i] == out@[i]@);
                lemma_own_place(views, i);
                assert(names_of(out@)[views[i]] == out@[i].written());
            }
        }
        out
    }
}

/// A set has a name for each path that it holds.
pub proof fn lemma_names(set: PathSet)
    ensures
        set.names().dom() == set@,
{
    assert(set.names().dom() =~= set@);
}

/// How the paths are written once there is a new one.
proof fn lemma_names_with(paths: Seq<SitePath>, path: SitePath)
    requires
        all_distinct(path_views(paths)),
        !path_views(paths).contains(path@),
    ensures
        names_of(paths.push(path)) == names_of(paths).insert(path@, path.written()),
{
    let views = path_views(paths);
    let all = path_views(paths.push(path));
    assert(all =~= views.push(path@));
    assert forall|i: int, j: int| 0 <= i < j < all.len() implies all[i] != all[j] by {
        if j == views.len() {
            assert(views.contains(views[i]));
        }
    }
    lemma_own_place(all, views.len() as int);
    assert forall|p: Seq<Seq<char>>| all.contains(p) <==> views.contains(p) || p == path@ by {
        if views.contains(p) {
            assert(all[views.index_of(p)] == p);
        }
        assert(all[views.len() as int] == path@);
        if all.contains(p) && p != path@ {
            let k = all.index_of(p);
            assert(views[k] == p);
        }
    }
    assert forall|p: Seq<Seq<char>>| views.contains(p) implies all.index_of(p) == views.index_of(
        p,
    ) by {
        let k = views.index_of(p);
        assert(all[k] == p);
        lemma_own_place(all, k);
    }
    assert(names_of(paths.push(path)) =~= names_of(paths).insert(path@, path.written()));
}

/// How the paths are written once one of them is gone.
proof fn lemma_names_without(paths: Seq<SitePath>, at: int)
    requires
        all_distinct(path_views(paths)),
        0 <= at < paths.len(),
    ensures
        names_of(paths.remove(at)) == names_of(paths).remove(paths[at]@),
{
    let views = path_views(paths);
    let left = path_views(paths.remove(at));
    assert(left =~= views.remove(at));
    assert(views[at] == paths[at]@);
    lemma_remove_set(views, at);
    assert forall|p: Seq<Seq<char>>| left.contains(p) <==> views.contains(p) && p != views[at] by {
        assert(left.to_set().contains(p) <==> left.contains(p));
        assert(views.to_set().remove(views[at]).contains(p) <==> views.contains(p) && p
            != views[at]);
    }
    assert forall|p: Seq<Seq<char>>| left.contains(p) implies paths.remove(at)[left.index_of(
        p,
    )].written() == paths[views.index_of(p)].written() by {
        let k = left.index_of(p);
        let i = if k < at {
            k
        } else {
            k + 1
        };
        assert(left[k] == p && views[i] == p);
        lemma_own_place(views, i);
        assert(paths.remove(at)[k] == paths[i]);
    }
    assert(names_of(paths.remove(at)) =~= names_of(paths).remove(paths[at]@));
}

/// Pushing an item puts it into the set of a list.
pub proof fn lemma_push_set<A>(s: Seq<A>, x: A)
    ensures
        s.push(x).to_set() == s.to_set().insert(x),
{
    assert forall|y: A| s.push(x).to_set().contains(y) <==> s.to_set().insert(x).contains(y) by {
        if s.push(x).contains(y) {
            let i = choose|i: int| 0 <= i < s.push(x).len() && s.push(x)[i] == y;
            if i < s.len() {
                assert(s[i] == y);
            }
        }
        if y == x {
            assert(s.push(x)[s.len() as int] == y);
        } else if s.contains(y) {
            let i = choose|i: int| 0 <= i < s.len() && s[i] == y;
            assert(s.push(x)[i] == y);
        }
    }
    assert(s.push(x).to_set() =~= s.to_set().insert(x));
}

/// Removing an item takes it out of the set of a list without repetitions.
pub proof fn lemma_remove_set(s: Seq<Seq<Seq<char>>>, at: int)
    requires
        all_distinct(s),
        0 <= at < s.len(),
    ensures
        s.remove(at).to_set() == s.to_set().remove(s[at]),
        all_distinct(s.remove(at)),
{
    let t = s.remove(at);
    assert forall|y: Seq<Seq<char>>| t.to_set().contains(y) <==> s.to_set().remove(
        s[at],
    ).contains(y) by {
        if t.contains(y) {
            let i = choose|i: int| 0 <= i < t.len() && t[i] == y;
            let k = if i < at {
                i
            } else {
                i + 1
            };
            assert(s[k] == y);
            if y == s[at] {
                if k < at {
                    assert(s[k] != s[at]);
                } else {
                    assert(s[at] != s[k]);
                }
            }
        }
        if s.contains(y) && y != s[at] {
            let i = choose|i: int| 0 <= i < s.len() && s[i] == y;
            if i < at {
                assert(t[i] == y);
            } else {
                assert(t[i - 1] == y);
            }
        }
    }
    assert(t.to_set() =~= s.to_set().remove(s[at]));
    assert forall|i: int, j: int| 0 <= i < j < t.len() implies t[i] != t[j] by {
        let a = if i < at {
            i
        } else {
            i + 1
        };
        let b = if j < at {
            j
        } else {
            j + 1
        };
        assert(t[i] == s[a] && t[j] == s[b]);
    }
}

/// The path `rest` seen from `base`: `rest` itself where it begins at the root.
pub open spec fn path_join(base: Seq<char>, rest: Seq<char>) -> Seq<char> {
    if text::begins_with(rest, "/"@) || base.len() == 0 {
        rest
    } else if text::finishes_with(base, "/"@) {
        base + rest
    } else {
        base + "/"@ + rest
    }
}

/// The path `rest` seen from `base`.
pub fn join_path(base: &str, rest: &str) -> (r: String)
    ensures
        r@ == path_join(base@, rest@),
{
    if starts_with(rest, "/") || base.is_empty() {
        return rest.to_owned();
    }
    let mut out = base.to_owned();
    if !ends_with(base, "/") {
        out.append("/");
    }
    out.append(rest);
    out
}

/// Whether a path lies under another, or is it: its first components are those
/// of the other.
pub open spec fn lies_under(path: Seq<Seq<char>>, root: Seq<Seq<char>>) -> bool {
    root.len() <= path.len() && path.take(root.len() as int) == root
}

/// Whether a path lies under another, or is it.
pub fn path_lies_under(path: &SitePath, root: &SitePath) -> (r: bool)
    ensures
        r == lies_under(path@, root@),
{
    let a = path.components();
    let b = root.components();
    if b.len() > a.len() {
        return false;
    }
    let mut i: usize = 0;
    while i < b.len()
        invariant
            i <= b.len() <= a.len(),
            text::texts(a@) == path@,
            text::texts(b@) == root@,
            forall|k: int| 0 <= k < i ==> (#[trigger] a@[k])@ == b@[k]@,
        decreases b.len() - i,
    {
        if !same(a[i].as_str(), b[i].as_str()) {
            proof {
                assert(path@.take(root@.len() as int)[i as int] == a@[i as int]@);
                assert(root@[i as int] == b@[i as int]@);
            }
            return false;
        }
        i += 1;
    }
    proof {
        assert(path@.take(root@.len() as int) =~= root@) by {
            assert forall|k: int| 0 <= k < root@.len() implies path@[k] == root@[k] by {
                assert(path@[k] == a@[k]@);
                assert(root@[k] == b@[k]@);
            }
        }
    }
    true
}

/// The index of the last dot of a file name, or -1.
pub open spec fn last_dot(name: Seq<char>) -> int
    decreases name.len(),
{
    if name.len() == 0 {
        -1
    } else if name.last() == '.' {
        name.len() - 1
    } else {
        last_dot(name.drop_last())
    }
}

/// The file name without its extension. A dot at the start begins no extension.
pub open spec fn name_stem(name: Seq<char>) -> Seq<char> {
    if last_dot(name) > 0 && name != ".."@ {
        name.take(last_dot(name))
    } else {
        name
    }
}

/// The extension of a file name, if it has one.
pub open spec fn name_extension(name: Seq<char>) -> Option<Seq<char>> {
    if last_dot(name) > 0 && name != ".."@ {
        Some(name.skip(last_dot(name) + 1))
    } else {
        None
    }
}

/// The file name without its extension, and the extension, if it has one.
pub fn split_file_name(name: &str) -> (r: (String, Option<String>))
    ensures
        r.0@ == name_stem(name@),
        text::opt_text(r.1) == name_extension(name@),
{
    let v = chars_of(name);
    let mut n: usize = v.len();
    proof {
        assert(v@.take(n as int) == v@);
    }
    while n > 0 && v[n - 1] != '.'
        invariant
            n <= v.len(),
            last_dot(v@.take(n as int)) == last_dot(v@),
        decreases n,
    {
        proof {
            assert(v@.take(n as int).drop_last() == v@.take(n - 1));
        }
        n -= 1;
    }
    if n <= 1 || same(name, "..") {
        return (name.to_owned(), None);
    }
    proof {
        assert(v@.take(n as int).last() == '.');
        assert(v@.subrange(0, n - 1) == v@.take(n - 1));
        assert(v@.subrange(n as int, v@.len() as int) == v@.skip(n as int));
    }
    (text_between(&v, 0, n - 1), Some(text_between(&v, n, v.len())))
}

/// The first of the segments from the given one on that is a component with `k`
/// components between them, or the end.
pub open spec fn name_start(segments: Seq<Seq<char>>, from: int, k: int) -> int
    decreases segments.len() - from,
{
    if from < 0 || from >= segments.len() {
        segments.len() as int
    } else if !is_component(segments[from], from) {
        name_start(segments, from + 1, k)
    } else if k > 0 {
        name_start(segments, from + 1, k - 1)
    } else {
        from
    }
}

/// Behind the last component among the first segments.
pub open spec fn names_end(segments: Seq<Seq<char>>, n: int) -> int
    decreases n,
{
    if n <= 0 {
        0
    } else if is_component(segments[n - 1], n - 1) {
        n
    } else {
        names_end(segments, n - 1)
    }
}

/// A path behind the given number of its components, as it is written there: from
/// the next component to the end of the last one.
pub open spec fn rest_of(path: Seq<char>, from: int) -> Seq<char> {
    let segments = text::split_of(path, '/');
    let end = names_end(segments, segments.len() as int);
    if text::begins_with(path, "/"@) {
        if from <= 0 {
            if end == 0 {
                "/"@
            } else {
                text::joined(segments.take(end), "/"@)
            }
        } else {
            joined_between(segments, name_start(segments, 0, from - 1), end)
        }
    } else {
        joined_between(segments, name_start(segments, 0, from), end)
    }
}

/// The segments from one place to another with separators between them.
pub open spec fn joined_between(segments: Seq<Seq<char>>, start: int, end: int) -> Seq<char> {
    if start < end {
        text::joined(segments.subrange(start, end), "/"@)
    } else {
        seq![]
    }
}

/// The segments from one place to another with separators between them.
fn join_between(segments: &Vec<String>, start: usize, end: usize) -> (r: String)
    requires
        end <= segments@.len(),
    ensures
        r@ == joined_between(text::texts(segments@), start as int, end as int),
{
    let ghost all = text::texts(segments@);
    let mut some: Vec<String> = Vec::new();
    let mut i: usize = start;
    while i < end
        invariant
            end <= segments@.len(),
            start <= i,
            start < end ==> i <= end,
            all == text::texts(segments@),
            some@.len() == i - start,
            forall|k: int| 0 <= k < some@.len() ==> (#[trigger] some@[k])@ == all[start + k],
        decreases end - i,
    {
        proof {
            assert(all[i as int] == segments@[i as int]@);
        }
        some.push(segments[i].clone());
        i += 1;
    }
    if start < end {
        proof {
            assert(text::texts(some@) =~= all.subrange(start as int, end as int));
        }
        text::join(&some, "/")
    } else {
        String::new()
    }
}

/// A path behind the given number of its components, as it is written there.
pub fn text_behind(path: &SitePath, from: usize) -> (r: String)
    ensures
        r@ == rest_of(path.written(), from as int),
{
    let whole = path.as_str();
    let segments = split(whole, '/');
    let ghost all = text::texts(segments@);
    let mut end: usize = segments.len();
    while end > 0 && !counts_as_name(segments[end - 1].as_str(), end - 1)
        invariant
            end <= segments.len(),
            all == text::texts(segments@),
            names_end(all, end as int) == names_end(all, all.len() as int),
        decreases end,
    {
        end -= 1;
    }
    let absolute = starts_with(whole, "/");
    if absolute && from == 0 {
        if end == 0 {
            return "/".to_owned();
        }
        proof {
            assert(all.subrange(0, end as int) =~= all.take(end as int));
        }
        return join_between(&segments, 0, end);
    }
    let mut k: usize = if absolute {
        from - 1
    } else {
        from
    };
    let ghost first = k as int;
    let mut start: usize = 0;
    let mut found = false;
    while start < segments.len() && !found
        invariant
            start <= segments.len(),
            all == text::texts(segments@),
            !found ==> name_start(all, start as int, k as int) == name_start(all, 0, first),
            found ==> start == name_start(all, 0, first),
        decreases segments.len() - start, if found { 0int } else { 1int },
    {
        if !counts_as_name(segments[start].as_str(), start) {
            start += 1;
        } else if k > 0 {
            k -= 1;
            start += 1;
        } else {
            found = true;
        }
    }
    join_between(&segments, start, end)
}

/// Whether a segment at the given place in a path is a component.
fn counts_as_name(segment: &str, place: usize) -> (r: bool)
    ensures
        r == is_component(segment@, place as int),
{
    if segment.is_empty() {
        false
    } else {
        place == 0 || !same(segment, ".")
    }
}

/// The components that segments make when those before the first of them are counted.
proof fn lemma_components_split(segments: Seq<Seq<char>>, n: int, keep: spec_fn(Seq<char>) -> bool)
    requires
        0 <= n <= segments.len(),
        segments.len() > 0 ==> segments[0] != "."@,
        forall|s: Seq<char>| #[trigger] keep(s) <==> s.len() > 0 && s != "."@,
    ensures
        components_among(segments, n) == segments.take(n).filter(keep),
    decreases n,
{
    reveal(Seq::filter);
    if n > 0 {
        lemma_components_split(segments, n - 1, keep);
        assert(segments.take(n).drop_last() =~= segments.take(n - 1));
        assert(segments.take(n).last() == segments[n - 1]);
        assert(keep(segments[n - 1]) <==> is_component(segments[n - 1], n - 1));
    } else {
        assert(segments.take(n) =~= seq![]);
    }
}

/// The components of a path are its segments between slashes, without the empty ones and
/// the single dots; a path that begins with a slash has the root as its first component.
pub proof fn law_components_are_the_segments_that_count(segments: Seq<Seq<char>>)
    requires
        segments.len() > 0,
        forall|k: int| 0 <= k < segments.len() ==> !(#[trigger] segments[k]).contains('/'),
        segments[0] != "."@,
    ensures
        segments[0].len() > 0 || segments.len() == 1 ==> components_of(
            text::joined(segments, seq!['/']),
        ) == segments.filter(|s: Seq<char>| s.len() > 0 && s != "."@),
        segments[0].len() == 0 && segments.len() > 1 ==> components_of(
            text::joined(segments, seq!['/']),
        ) == seq![seq!['/']] + segments.filter(|s: Seq<char>| s.len() > 0 && s != "."@),
{
    reveal_strlit("/");
    let keep = |s: Seq<char>| s.len() > 0 && s != "."@;
    let path = text::joined(segments, seq!['/']);
    text::law_splitting_undoes_joining(segments, '/');
    lemma_components_split(segments, segments.len() as int, keep);
    assert(segments.take(segments.len() as int) =~= segments);
    assert("/"@ =~= seq!['/']);
    if segments.len() == 1 {
        assert(path == segments[0]);
        assert(!text::begins_with(path, "/"@)) by {
            if text::begins_with(path, "/"@) {
                assert(path.take(1)[0] == '/');
                assert(segments[0].contains(path[0]));
            }
        }
    } else {
        text::lemma_joined_first(segments, seq!['/']);
        let rest = text::joined(segments.skip(1), seq!['/']);
        assert(path == segments[0] + seq!['/'] + rest);
        if segments[0].len() == 0 {
            assert(path[0] == '/');
            assert(path.take(1) =~= "/"@);
        } else {
            assert(path[0] == segments[0][0]);
            assert(segments[0].contains(path[0]));
            assert(!text::begins_with(path, "/"@)) by {
                if text::begins_with(path, "/"@) {
                    assert(path.take(1)[0] == '/');
                }
            }
        }
    }
}

/// A relative path that is joined to another has the components of both.
pub proof fn law_joined_path_has_both(base: Seq<char>, rest: Seq<char>)
    requires
        base.len() > 0,
        rest.len() == 0 || rest[0] != '/',
        text::split_of(rest, '/')[0] != "."@,
    ensures
        components_of(path_join(base, rest)) == components_of(base) + components_of(rest),
{
    reveal_strlit("/");
    reveal_strlit(".");
    let whole = path_join(base, rest);
    let front = text::split_of(base, '/');
    let back = text::split_of(rest, '/');
    text::law_joining_undoes_splitting(base, '/');
    text::law_joining_undoes_splitting(rest, '/');
    if text::begins_with(rest, "/"@) {
        assert(rest.take(1)[0] == '/');
    }
    if text::finishes_with(base, "/"@) {
        let bare = base.drop_last();
        assert(base.skip(base.len() - 1)[0] == '/');
        assert(whole =~= bare + seq!['/'] + rest);
        text::law_pieces_of_two_texts(bare, rest, '/');
        text::law_pieces_of_two_texts(bare, seq![], '/');
        assert(bare + seq!['/'] + Seq::<char>::empty() =~= base);
        text::law_joining_undoes_splitting(bare, '/');
        let names = text::split_of(bare, '/');
        text::lemma_split_only(seq![], '/');
        assert(front =~= names + seq![Seq::<char>::empty()]);
        lemma_components_of_two(names, back);
        lemma_components_of_two(names, seq![Seq::<char>::empty()]);
        assert(components_among(seq![Seq::<char>::empty()], 1) =~= seq![]) by {
            assert(components_among(seq![Seq::<char>::empty()], 0) =~= seq![]);
        }
    } else {
        assert(whole =~= base + seq!['/'] + rest);
        text::law_pieces_of_two_texts(base, rest, '/');
        lemma_components_of_two(front, back);
    }
    assert(text::begins_with(whole, "/"@) == text::begins_with(base, "/"@)) by {
        assert(whole.take(1) =~= base.take(1));
    }
    assert(!text::begins_with(rest, "/"@));
    assert(components_of(whole) =~= components_of(base) + components_of(rest));
}

/// The components of two rows of segments are those of the first and those of the second.
proof fn lemma_components_of_two(a: Seq<Seq<char>>, b: Seq<Seq<char>>)
    requires
        a.len() > 0,
        b.len() > 0,
        b[0] != "."@,
    ensures
        components_among(a + b, (a + b).len() as int) == components_among(a, a.len() as int)
            + components_among(b, b.len() as int),
{
    lemma_components_behind(a, b, b.len() as int);
}

/// The components of the first segments of a second row.
proof fn lemma_components_behind(a: Seq<Seq<char>>, b: Seq<Seq<char>>, n: int)
    requires
        a.len() > 0,
        0 <= n <= b.len(),
        b.len() > 0 ==> b[0] != "."@,
    ensures
        components_among(a + b, a.len() + n) == components_among(a, a.len() as int)
            + components_among(b, n),
    decreases n,
{
    let all = a + b;
    if n == 0 {
        lemma_components_before(a, b, a.len() as int);
        assert(components_among(b, 0) =~= seq![]);
        assert(components_among(all, a.len() as int) =~= components_among(a, a.len() as int)
            + components_among(b, 0));
    } else {
        lemma_components_behind(a, b, n - 1);
        assert(all[a.len() + n - 1] == b[n - 1]);
        assert(components_among(all, a.len() + n) =~= components_among(a, a.len() as int)
            + components_among(b, n));
    }
}

/// The components of the first segments do not depend on those behind them.
proof fn lemma_components_before(a: Seq<Seq<char>>, b: Seq<Seq<char>>, n: int)
    requires
        0 <= n <= a.len(),
    ensures
        components_among(a + b, n) == components_among(a, n),
    decreases n,
{
    if n > 0 {
        lemma_components_before(a, b, n - 1);
        assert((a + b)[n - 1] == a[n - 1]);
    }
}

/// An absolute path that is joined to another takes its place, and so does any path that
/// is joined to an empty one.
pub proof fn law_absolute_path_takes_the_place(base: Seq<char>, rest: Seq<char>)
    requires
        base.len() == 0 || rest.len() > 0 && rest[0] == '/',
    ensures
        path_join(base, rest) == rest,
{
    reveal_strlit("/");
    if base.len() > 0 {
        assert(rest.take(1) =~= "/"@);
    }
}

/// A path lies under another if and only if it goes on where the other ends.
pub proof fn law_path_lies_under_its_start(root: Seq<Seq<char>>, rest: Seq<Seq<char>>, path: Seq<Seq<char>>)
    ensures
        lies_under(root + rest, root),
        lies_under(path, root) ==> exists|more: Seq<Seq<char>>| path == #[trigger] (root + more),
{
    assert((root + rest).take(root.len() as int) =~= root);
    if lies_under(path, root) {
        let more = path.skip(root.len() as int);
        assert(path =~= root + more);
    }
}

/// A dot before a text without dots is the last.
proof fn lemma_last_dot(stem: Seq<char>, extension: Seq<char>)
    requires
        !extension.contains('.'),
    ensures
        last_dot(stem + seq!['.'] + extension) == stem.len(),
    decreases extension.len(),
{
    let name = stem + seq!['.'] + extension;
    if extension.len() == 0 {
        assert(name.last() == '.');
    } else {
        assert(extension.contains(extension.last()));
        let shorter = extension.drop_last();
        assert(!shorter.contains('.')) by {
            if shorter.contains('.') {
                let k = choose|k: int| 0 <= k < shorter.len() && shorter[k] == '.';
                assert(extension[k] == '.');
            }
        }
        lemma_last_dot(stem, shorter);
        assert(name.drop_last() =~= stem + seq!['.'] + shorter);
    }
}

/// A text without dots has no last dot.
proof fn lemma_no_dot(name: Seq<char>)
    requires
        !name.contains('.'),
    ensures
        last_dot(name) == -1,
    decreases name.len(),
{
    if name.len() > 0 {
        assert(name.contains(name.last()));
        let shorter = name.drop_last();
        assert(!shorter.contains('.')) by {
            if shorter.contains('.') {
                let k = choose|k: int| 0 <= k < shorter.len() && shorter[k] == '.';
                assert(name[k] == '.');
            }
        }
        lemma_no_dot(shorter);
    }
}

/// The extension of a file name stands behind its last dot, the stem before it. A name
/// whose only dot is its first character has none, and neither has one without dots.
pub proof fn law_file_name_is_stem_and_extension(stem: Seq<char>, extension: Seq<char>)
    requires
        !extension.contains('.'),
    ensures
        stem.len() > 0 && (stem != seq!['.'] || extension.len() > 0) ==> name_stem(
            stem + seq!['.'] + extension,
        ) == stem && name_extension(stem + seq!['.'] + extension) == Some(extension),
        name_stem(seq!['.'] + extension) == seq!['.'] + extension && name_extension(
            seq!['.'] + extension,
        ) is None,
        name_stem(extension) == extension && name_extension(extension) is None,
{
    reveal_strlit("..");
    let name = stem + seq!['.'] + extension;
    lemma_last_dot(stem, extension);
    assert(name.take(stem.len() as int) =~= stem);
    assert(name.skip(stem.len() as int + 1) =~= extension);
    if stem.len() > 0 && name == ".."@ {
        assert(name.len() == 2);
        assert(stem[0] == name[0]);
        assert(stem =~= seq!['.']);
    }
    lemma_last_dot(seq![], extension);
    assert(Seq::<char>::empty() + seq!['.'] + extension =~= seq!['.'] + extension);
    lemma_no_dot(extension);
}

/// Whether names can stand between slashes and count: not empty, no slashes, no dots.
pub open spec fn are_plain_names(names: Seq<Seq<char>>) -> bool {
    forall|k: int|
        0 <= k < names.len() ==> (#[trigger] names[k]).len() > 0 && !names[k].contains('/')
            && names[k] != "."@
}

/// Where the name with a number begins among names that all count.
proof fn lemma_name_start(names: Seq<Seq<char>>, from: int, k: int)
    requires
        are_plain_names(names),
        0 <= from,
        0 <= k,
    ensures
        name_start(names, from, k) == if from + k < names.len() {
            from + k
        } else {
            names.len() as int
        },
    decreases names.len() - from,
{
    if from < names.len() {
        assert(names[from].len() > 0);
        if k > 0 {
            lemma_name_start(names, from + 1, k - 1);
        }
    }
}

/// What stands behind the first components of a path is the rest of its names, with
/// slashes between them.
pub proof fn law_rest_of_a_path(names: Seq<Seq<char>>, k: int)
    requires
        are_plain_names(names),
        0 <= k < names.len(),
    ensures
        rest_of(text::joined(names, seq!['/']), k) == text::joined(names.skip(k), seq!['/']),
        rest_of(seq!['/'] + text::joined(names, seq!['/']), k + 1) == text::joined(
            names.skip(k),
            seq!['/'],
        ),
{
    reveal_strlit("/");
    assert("/"@ =~= seq!['/']);
    let path = text::joined(names, seq!['/']);
    let n = names.len() as int;
    text::law_splitting_undoes_joining(names, '/');
    lemma_name_start(names, 0, k);
    assert(names[n - 1].len() > 0 && names[n - 1] != "."@);
    assert(names_end(names, n) == n);
    assert(names.subrange(k, n) =~= names.skip(k));
    assert(!text::begins_with(path, "/"@)) by {
        if text::begins_with(path, "/"@) {
            assert(path.take(1)[0] == '/');
            if n == 1 {
                assert(names[0].contains(path[0]));
            } else {
                text::lemma_joined_first(names, seq!['/']);
                assert(path[0] == names[0][0]);
                assert(names[0].contains(names[0][0]));
            }
        }
    }
    let absolute = seq!['/'] + path;
    let empty = Seq::<char>::empty();
    assert(absolute =~= empty + seq!['/'] + path);
    text::law_pieces_of_two_texts(empty, path, '/');
    text::lemma_split_only(empty, '/');
    let segments = seq![empty] + names;
    assert(text::split_of(absolute, '/') =~= segments);
    assert(absolute.take(1) =~= "/"@);
    lemma_name_start_behind_root(names, k);
    assert(segments[n] == names[n - 1]);
    assert(names_end(segments, n + 1) == n + 1);
    assert(segments.subrange(k + 1, n + 1) =~= names.skip(k));
}

/// Where the name with a number begins among names behind an empty segment.
proof fn lemma_name_start_behind_root(names: Seq<Seq<char>>, k: int)
    requires
        are_plain_names(names),
        0 <= k < names.len(),
    ensures
        name_start(seq![Seq::<char>::empty()] + names, 0, k) == k + 1,
{
    let segments = seq![Seq::<char>::empty()] + names;
    assert(segments[0].len() == 0);
    lemma_name_start_shifted(names, 1, k);
}

/// Where the name with a number begins behind a place that is not the first.
proof fn lemma_name_start_shifted(names: Seq<Seq<char>>, from: int, k: int)
    requires
        are_plain_names(names),
        1 <= from,
        0 <= k,
        from + k <= names.len(),
    ensures
        name_start(seq![Seq::<char>::empty()] + names, from, k) == from + k,
    decreases k,
{
    let segments = seq![Seq::<char>::empty()] + names;
    assert(segments[from] == names[from - 1]);
    assert(names[from - 1].len() > 0);
    if k > 0 {
        lemma_name_start_shifted(names, from + 1, k - 1);
    }
}

} // verus!
