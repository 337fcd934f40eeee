//! Which outputs were built from which sources.

use vstd::prelude::*;

use crate::path;
use crate::path::{PathSet, SitePath};

verus! {

/// The keys of a list of entries.
spec fn keys_of(entries: Seq<(SitePath, PathSet)>) -> Seq<Seq<Seq<char>>> {
    entries.map_values(|e: (SitePath, PathSet)| e.0@)
}

/// A map from paths to sets of paths.
#[derive(Debug)]
struct PathMap {
    entries: Vec<(SitePath, PathSet)>,
}

impl View for PathMap {
    type V = Map<Seq<Seq<char>>, Set<Seq<Seq<char>>>>;

    closed spec fn view(&self) -> Map<Seq<Seq<char>>, Set<Seq<Seq<char>>>> {
        Map::new(
            |p: Seq<Seq<char>>| keys_of(self.entries@).contains(p),
            |p: Seq<Seq<char>>| self.entries@[keys_of(self.entries@).index_of(p)].1@,
        )
    }
}

impl PathMap {
    #[verifier::type_invariant]
    spec fn distinct_keys(self) -> bool {
        path::all_distinct(keys_of(self.entries@))
    }

    /// The map without entries.
    fn new() -> (r: PathMap)
        ensures
            r@ == Map::<Seq<Seq<char>>, Set<Seq<Seq<char>>>>::empty(),
    {
        let entries: Vec<(SitePath, PathSet)> = Vec::new();
        let r = PathMap { entries };
        proof {
            assert(r@ =~= Map::empty());
        }
        r
    }

    /// The place of a key in the list, or its length.
    fn position(&self, key: &SitePath) -> (r: usize)
        ensures
            r <= self.entries@.len(),
            r < self.entries@.len() ==> self.entries@[r as int].0@ == key@,
            (r < self.entries@.len()) == self@.contains_key(key@),
            r < self.entries@.len() ==> self@[key@] == self.entries@[r as int].1@,
    {
        proof {
            use_type_invariant(self);
        }
        let ghost keys = keys_of(self.entries@);
        let mut i: usize = 0;
        while i < self.entries.len()
            invariant
                i <= self.entries.len(),
                keys == keys_of(self.entries@),
                path::all_distinct(keys),
                forall|k: int| 0 <= k < i ==> (#[trigger] self.entries@[k]).0@ != key@,
            decreases self.entries.len() - i,
        {
            if self.entries[i].0.same_as(key) {
                proof {
                    assert(keys[i as int] == key@);
                    lemma_index_of(keys, i as int);
                }
                return i;
            }
            i += 1;
        }
        proof {
            assert forall|k: int| 0 <= k < keys.len() implies keys[k] != key@ by {
                assert(keys[k] == self.entries@[k].0@);
            }
        }
        i
    }

    /// Whether the map has the key.
    fn contains_key(&self, key: &SitePath) -> (r: bool)
        ensures
            r == self@.contains_key(key@),
    {
        self.position(key) < self.entries.len()
    }

    /// The set under a key, or the empty set.
    fn get_or_empty(&self, key: &SitePath) -> (r: PathSet)
        ensures
            r@ == set_under(self@, key@),
    {
        let at = self.position(key);
        if at < self.entries.len() {
            self.entries[at].1.clone()
        } else {
            PathSet::new()
        }
    }

    /// Takes the entry under a key out of the map.
    fn take_out(&mut self, key: &SitePath) -> (r: Option<PathSet>)
        ensures
            match r {
                Some(set) => old(self)@.contains_key(key@) && set@ == old(self)@[key@],
                None => !old(self)@.contains_key(key@),
            },
            final(self)@ == old(self)@.remove(key@),
    {
        let at = self.position(key);
        if at == self.entries.len() {
            proof {
                assert(self@.remove(key@) =~= self@);
            }
            return None;
        }
        proof {
            use_type_invariant(&*self);
        }
        let ghost before = self.entries@;
        let ghost map = self@;
        let mut entries: Vec<(SitePath, PathSet)> = Vec::new();
        std::mem::swap(&mut entries, &mut self.entries);
        let (_, set) = entries.remove(at);
        proof {
            let keys = keys_of(before);
            assert(keys_of(entries@) =~= keys.remove(at as int));
            path::lemma_remove_set(keys, at as int);
        }
        self.entries = entries;
        proof {
            let keys = keys_of(before);
            let left = keys_of(self.entries@);
            assert(keys[at as int] == key@);
            assert(left == keys.remove(at as int));
            assert forall|p: Seq<Seq<char>>| self@.contains_key(p) implies map.contains_key(p) && p
                != key@ && self@[p] == map[p] by {
                assert(left.to_set().contains(p));
                assert(keys.to_set().contains(p));
                let i = left.index_of(p);
                assert(0 <= i < left.len() && left[i] == p);
                let k = if i < at {
                    i
                } else {
                    i + 1
                };
                assert(keys[k] == p);
                assert(before[k] == self.entries@[i]);
                lemma_index_of(keys, k);
            }
            assert forall|p: Seq<Seq<char>>| map.contains_key(p) && p != key@ implies self@.contains_key(
                p,
            ) by {
                assert(keys.to_set().contains(p));
                assert(left.to_set().contains(p));
            }
            assert(self@ =~= map.remove(key@));
        }
        Some(set)
    }

    /// Puts an entry under a key that the map does not have.
    fn put_new(&mut self, key: SitePath, set: PathSet)
        requires
            !old(self)@.contains_key(key@),
        ensures
            final(self)@ == old(self)@.insert(key@, set@),
    {
        proof {
            use_type_invariant(&*self);
        }
        let ghost before = self.entries@;
        let ghost map = self@;
        let ghost k = key@;
        let ghost v = set@;
        let mut entries: Vec<(SitePath, PathSet)> = Vec::new();
        std::mem::swap(&mut entries, &mut self.entries);
        entries.push((key, set));
        proof {
            let keys = keys_of(before);
            let more = keys.push(k);
            assert(keys_of(entries@) =~= more);
            assert forall|i: int, j: int| 0 <= i < j < more.len() implies more[i] != more[j] by {
                if j == keys.len() {
                    assert(keys.contains(keys[i]));
                }
            }
        }
        self.entries = entries;
        proof {
            let keys = keys_of(before);
            let more = keys_of(self.entries@);
            path::lemma_push_set(keys, k);
            assert(more =~= keys.push(k));
            assert forall|p: Seq<Seq<char>>| self@.contains_key(p) <==> map.insert(k, v).contains_key(
                p,
            ) by {
                assert(more.to_set().contains(p) <==> keys.to_set().insert(k).contains(p));
            }
            assert forall|p: Seq<Seq<char>>| self@.contains_key(p) implies self@[p] == map.insert(
                k,
                v,
            )[p] by {
                let i = more.index_of(p);
                assert(0 <= i < more.len() && more[i] == p);
                if p == k {
                    lemma_index_of(more, keys.len() as int);
                } else {
                    assert(i < keys.len());
                    assert(keys[i] == p);
                    lemma_index_of(keys, i);
                    assert(self.entries@[i] == before[i]);
                }
            }
            assert(self@ =~= map.insert(k, v));
        }
    }

    /// Puts `item` into the set under `key`.
    fn relate(&mut self, key: &SitePath, item: &SitePath)
        ensures
            final(self)@ == old(self)@.insert(key@, set_under(old(self)@, key@).insert(item@)),
    {
        let ghost map = self@;
        let mut set = match self.take_out(key) {
            Some(set) => set,
            None => PathSet::new(),
        };
        set.insert(item.clone());
        self.put_new(key.clone(), set);
        proof {
            assert(self@ =~= map.insert(key@, set_under(map, key@).insert(item@)));
        }
    }

    /// Takes `item` out of the set under `key`, and the entry out of the map
    /// where nothing is left in it.
    fn part(&mut self, key: &SitePath, item: &SitePath)
        ensures
            final(self)@ == parted(old(self)@, key@, item@),
    {
        let ghost map = self@;
        if let Some(mut set) = self.take_out(key) {
            set.remove(item);
            if !set.is_empty() {
                self.put_new(key.clone(), set);
                proof {
                    assert(self@ =~= map.insert(key@, map[key@].remove(item@)));
                }
            }
        } else {
            proof {
                assert(map.remove(key@) =~= map);
            }
        }
    }
}

/// In a list without repetitions, the index of an item is where it stands.
proof fn lemma_index_of(keys: Seq<Seq<Seq<char>>>, i: int)
    requires
        path::all_distinct(keys),
        0 <= i < keys.len(),
    ensures
        keys.index_of(keys[i]) == i,
        keys.contains(keys[i]),
{
    let j = keys.index_of(keys[i]);
    assert(keys.contains(keys[i]));
    if j < i {
        assert(keys[j] != keys[i]);
    }
    if i < j {
        assert(keys[i] != keys[j]);
    }
}

/// The set under a key, or the empty set.
pub open spec fn set_under(
    map: Map<Seq<Seq<char>>, Set<Seq<Seq<char>>>>,
    key: Seq<Seq<char>>,
) -> Set<Seq<Seq<char>>> {
    if map.contains_key(key) {
        map[key]
    } else {
        Set::empty()
    }
}

/// The map with `item` taken out of the set under `key`, and the entry with it
/// where nothing is left.
spec fn parted(
    map: Map<Seq<Seq<char>>, Set<Seq<Seq<char>>>>,
    key: Seq<Seq<char>>,
    item: Seq<Seq<char>>,
) -> Map<Seq<Seq<char>>, Set<Seq<Seq<char>>>> {
    if !map.contains_key(key) {
        map
    } else if map[key].remove(item) =~= Set::<Seq<Seq<char>>>::empty() {
        map.remove(key)
    } else {
        map.insert(key, map[key].remove(item))
    }
}

/// The outputs that were built from a source.
pub open spec fn outputs_of(
    graph: Map<Seq<Seq<char>>, Set<Seq<Seq<char>>>>,
    source: Seq<Seq<char>>,
) -> Set<Seq<Seq<char>>> {
    Set::new(|output: Seq<Seq<char>>| set_under(graph, output).contains(source))
}

/// Whether the two maps of a graph say the same, and the one from sources to
/// outputs has no source without an output.
spec fn consistent(
    forward: Map<Seq<Seq<char>>, Set<Seq<Seq<char>>>>,
    reverse: Map<Seq<Seq<char>>, Set<Seq<Seq<char>>>>,
) -> bool {
    &&& forall|output: Seq<Seq<char>>, source: Seq<Seq<char>>| #[trigger]
        set_under(forward, output).contains(source) <==> #[trigger] set_under(
            reverse,
            source,
        ).contains(output)
    &&& forall|source: Seq<Seq<char>>| #[trigger]
        reverse.contains_key(source) ==> !(reverse[source] =~= Set::<Seq<Seq<char>>>::empty())
}

/// Tracks which output files depend on which source files.
///
/// The model of a graph is the map from each output to the sources that it was
/// built from. The graph also keeps the reverse map, and keeps the two in step.
#[derive(Debug)]
pub struct DependencyGraph {
    forward: PathMap,
    reverse: PathMap,
}

impl View for DependencyGraph {
    type V = Map<Seq<Seq<char>>, Set<Seq<Seq<char>>>>;

    closed spec fn view(&self) -> Map<Seq<Seq<char>>, Set<Seq<Seq<char>>>> {
        self.forward@
    }
}

impl Default for DependencyGraph {
    fn default() -> (r: Self)
        ensures
            r@ == Map::<Seq<Seq<char>>, Set<Seq<Seq<char>>>>::empty(),
    {
        DependencyGraph::new()
    }
}

/// Takes the outputs' entry for `output` out of the reverse map of a graph.
fn forget(reverse: &mut PathMap, sources: &PathSet, output: &SitePath)
    requires
        forall|source: Seq<Seq<char>>|
            sources@.contains(source) <==> #[trigger] set_under(old(reverse)@, source).contains(
                output@,
            ),
        forall|source: Seq<Seq<char>>| #[trigger]
            old(reverse)@.contains_key(source) ==> !(old(reverse)@[source] =~= Set::<
                Seq<Seq<char>>,
            >::empty()),
    ensures
        forall|source: Seq<Seq<char>>| #[trigger]
            set_under(final(reverse)@, source) == set_under(old(reverse)@, source).remove(output@),
        forall|source: Seq<Seq<char>>| #[trigger]
            final(reverse)@.contains_key(source) ==> !(final(reverse)@[source] =~= Set::<
                Seq<Seq<char>>,
            >::empty()),
{
    let list = sources.to_vec();
    let ghost first = reverse@;
    let ghost views = path::path_views(list@);
    let mut i: usize = 0;
    while i < list.len()
        invariant
            i <= list.len(),
            views == path::path_views(list@),
            path::all_distinct(views),
            forall|source: Seq<Seq<char>>|
                !views.take(i as int).contains(source) ==> #[trigger] set_under(reverse@, source)
                    == set_under(first, source),
            forall|source: Seq<Seq<char>>|
                views.take(i as int).contains(source) ==> #[trigger] set_under(reverse@, source)
                    == set_under(first, source).remove(output@),
            forall|source: Seq<Seq<char>>| #[trigger]
                reverse@.contains_key(source) ==> !(reverse@[source] =~= Set::<
                    Seq<Seq<char>>,
                >::empty()),
        decreases list.len() - i,
    {
        let ghost before = reverse@;
        reverse.part(&list[i], output);
        proof {
            let here = views[i as int];
            assert(here == list@[i as int]@);
            assert(views.take(i + 1) =~= views.take(i as int).push(here));
            assert(!views.take(i as int).contains(here)) by {
                if views.take(i as int).contains(here) {
                    let j = choose|j: int|
                        0 <= j < views.take(i as int).len() && views.take(i as int)[j] == here;
                    assert(views[j] == views[i as int]);
                }
            }
            path::lemma_push_set(views.take(i as int), here);
            assert forall|source: Seq<Seq<char>>|
                views.take(i + 1).contains(source) <==> views.take(i as int).contains(source)
                    || source == here by {
                assert(views.take(i + 1).to_set().contains(source) <==> views.take(
                    i as int,
                ).to_set().insert(here).contains(source));
            }
            assert forall|source: Seq<Seq<char>>| #[trigger] set_under(reverse@, source) == (if source
                == here {
                set_under(before, source).remove(output@)
            } else {
                set_under(before, source)
            }) by {
                if source == here {
                    if before.contains_key(here) {
                        if before[here].remove(output@) =~= Set::<Seq<Seq<char>>>::empty() {
                            assert(set_under(reverse@, here) =~= before[here].remove(output@));
                        }
                    } else {
                        assert(set_under(before, here).remove(output@) =~= set_under(before, here));
                    }
                }
            }
            assert forall|source: Seq<Seq<char>>| !views.take(i + 1).contains(source) implies
                #[trigger] set_under(reverse@, source) == set_under(first, source) by {
                assert(set_under(before, source) == set_under(first, source));
            }
            assert forall|source: Seq<Seq<char>>| views.take(i + 1).contains(source) implies
                #[trigger] set_under(reverse@, source) == set_under(first, source).remove(
                output@,
            ) by {
                assert(set_under(before, source) == set_under(before, source));
                if source == here {
                    assert(set_under(before, source) == set_under(first, source));
                }
            }
            assert forall|source: Seq<Seq<char>>| #[trigger] reverse@.contains_key(source) implies !(
            reverse@[source] =~= Set::<Seq<Seq<char>>>::empty()) by {
                if source != here {
                    assert(before.contains_key(source));
                }
            }
        }
        i += 1;
    }
    proof {
        assert(views.take(i as int) =~= views);
        assert forall|source: Seq<Seq<char>>| #[trigger] set_under(reverse@, source) == set_under(
            first,
            source,
        ).remove(output@) by {
            if !views.contains(source) {
                assert(!views.to_set().contains(source));
                assert(!set_under(first, source).contains(output@));
                assert(set_under(first, source).remove(output@) =~= set_under(first, source));
            }
        }
    }
}

impl DependencyGraph {
    #[verifier::type_invariant]
    spec fn in_step(self) -> bool {
        consistent(self.forward@, self.reverse@)
    }

    /// The graph without outputs.
    pub fn new() -> (r: Self)
        ensures
            r@ == Map::<Seq<Seq<char>>, Set<Seq<Seq<char>>>>::empty(),
    {
        DependencyGraph { forward: PathMap::new(), reverse: PathMap::new() }
    }

    /// Remove all dependency records for `output`.
    pub fn remove_output(&mut self, output: &SitePath)
        ensures
            final(self)@ == old(self)@.remove(output@),
    {
        proof {
            use_type_invariant(&*self);
        }
        let ghost old_forward = self.forward@;
        let ghost old_reverse = self.reverse@;
        let mut graph = DependencyGraph::new();
        std::mem::swap(&mut graph, self);
        let DependencyGraph { forward, reverse } = graph;
        let mut forward = forward;
        let mut reverse = reverse;
        match forward.take_out(output) {
            Some(sources) => {
                proof {
                    assert forall|source: Seq<Seq<char>>|
                        sources@.contains(source) <==> #[trigger] set_under(
                            old_reverse,
                            source,
                        ).contains(output@) by {
                        assert(set_under(old_forward, output@) == sources@);
                        assert(set_under(old_forward, output@).contains(source) <==> set_under(
                            old_reverse,
                            source,
                        ).contains(output@));
                    }
                }
                forget(&mut reverse, &sources, output);
                proof {
                    assert forall|o: Seq<Seq<char>>, source: Seq<Seq<char>>| #[trigger]
                        set_under(forward@, o).contains(source) <==> #[trigger] set_under(
                            reverse@,
                            source,
                        ).contains(o) by {
                        assert(set_under(old_forward, o).contains(source) <==> set_under(
                            old_reverse,
                            source,
                        ).contains(o));
                        assert(set_under(reverse@, source) == set_under(old_reverse, source).remove(
                            output@,
                        ));
                        if o != output@ {
                            assert(set_under(forward@, o) == set_under(old_forward, o));
                        }
                    }
                }
            },
            None => {
                proof {
                    assert(old_forward.remove(output@) =~= old_forward);
                }
            },
        }
        *self = DependencyGraph { forward, reverse };
    }

    /// Record that `output` was built from `sources`.
    /// Replaces any previous registration for `output`.
    pub fn register(&mut self, output: SitePath, sources: PathSet)
        ensures
            final(self)@ == old(self)@.insert(output@, sources@),
    {
        let ghost start = self@;
        self.remove_output(&output);
        proof {
            use_type_invariant(&*self);
        }
        let ghost old_forward = self.forward@;
        let ghost old_reverse = self.reverse@;
        let mut graph = DependencyGraph::new();
        std::mem::swap(&mut graph, self);
        let DependencyGraph { forward, reverse } = graph;
        let mut forward = forward;
        let mut reverse = reverse;
        let list = sources.to_vec();
        let ghost views = path::path_views(list@);
        let ghost o = output@;
        let mut i: usize = 0;
        while i < list.len()
            invariant
                i <= list.len(),
                views == path::path_views(list@),
                o == output@,
                forall|source: Seq<Seq<char>>|
                    !views.take(i as int).contains(source) ==> #[trigger] set_under(
                        reverse@,
                        source,
                    ) == set_under(old_reverse, source),
                forall|source: Seq<Seq<char>>|
                    views.take(i as int).contains(source) ==> #[trigger] set_under(reverse@, source)
                        == set_under(old_reverse, source).insert(o),
                forall|source: Seq<Seq<char>>| #[trigger]
                    reverse@.contains_key(source) ==> !(reverse@[source] =~= Set::<
                        Seq<Seq<char>>,
                    >::empty()),
            decreases list.len() - i,
        {
            let ghost before = reverse@;
            reverse.relate(&list[i], &output);
            proof {
                let here = views[i as int];
                assert(here == list@[i as int]@);
                assert(views.take(i + 1) =~= views.take(i as int).push(here));
                path::lemma_push_set(views.take(i as int), here);
                assert forall|source: Seq<Seq<char>>|
                    views.take(i + 1).contains(source) <==> views.take(i as int).contains(source)
                        || source == here by {
                    assert(views.take(i + 1).to_set().contains(source) <==> views.take(
                        i as int,
                    ).to_set().insert(here).contains(source));
                }
                assert forall|source: Seq<Seq<char>>| #[trigger] set_under(reverse@, source) == (if source
                    == here {
                    set_under(before, source).insert(o)
                } else {
                    set_under(before, source)
                }) by {}
                assert forall|source: Seq<Seq<char>>| !views.take(i + 1).contains(source) implies
                    #[trigger] set_under(reverse@, source) == set_under(old_reverse, source) by {
                    assert(set_under(before, source) == set_under(old_reverse, source));
                }
                assert forall|source: Seq<Seq<char>>| views.take(i + 1).contains(source) implies
                    #[trigger] set_under(reverse@, source) == set_under(old_reverse, source).insert(
                    o,
                ) by {
                    if source == here {
                        if views.take(i as int).contains(here) {
                            assert(set_under(before, here) == set_under(old_reverse, here).insert(o));
                            assert(set_under(old_reverse, here).insert(o).insert(o) =~= set_under(
                                old_reverse,
                                here,
                            ).insert(o));
                        } else {
                            assert(set_under(before, here) == set_under(old_reverse, here));
                        }
                    } else {
                        assert(set_under(before, source) == set_under(old_reverse, source).insert(
                            o,
                        ));
                    }
                }
                assert forall|source: Seq<Seq<char>>| #[trigger]
                    reverse@.contains_key(source) implies !(reverse@[source] =~= Set::<
                    Seq<Seq<char>>,
                >::empty()) by {
                    if source == here {
                        assert(reverse@[here].contains(o));
                    } else {
                        assert(before.contains_key(source));
                    }
                }
            }
            i += 1;
        }
        let ghost set = sources@;
        forward.put_new(output, sources);
        proof {
            assert(views.take(i as int) =~= views);
            assert forall|out: Seq<Seq<char>>, source: Seq<Seq<char>>| #[trigger]
                set_under(forward@, out).contains(source) <==> #[trigger] set_under(
                    reverse@,
                    source,
                ).contains(out) by {
                assert(set_under(old_forward, out).contains(source) <==> set_under(
                    old_reverse,
                    source,
                ).contains(out));
                assert(views.to_set().contains(source) <==> set.contains(source));
                if out == o {
                    assert(set_under(forward@, out) == set);
                    assert(!set_under(old_forward, o).contains(source));
                } else {
                    assert(set_under(forward@, out) == set_under(old_forward, out));
                }
            }
        }
        *self = DependencyGraph { forward, reverse };
        proof {
            assert(start.remove(o).insert(o, set) =~= start.insert(o, set));
        }
    }

    /// Given a changed source file, return all output files that need rebuilding.
    pub fn affected_outputs(&self, source: &SitePath) -> (r: PathSet)
        ensures
            r@ == outputs_of(self@, source@),
    {
        proof {
            use_type_invariant(self);
        }
        let r = self.reverse.get_or_empty(source);
        proof {
            assert forall|o: Seq<Seq<char>>| r@.contains(o) <==> outputs_of(
                self@,
                source@,
            ).contains(o) by {
                assert(set_under(self.forward@, o).contains(source@) <==> set_under(
                    self.reverse@,
                    source@,
                ).contains(o));
            }
            assert(r@ =~= outputs_of(self@, source@));
        }
        r
    }

    /// Return all source files that `output` was built from.
    pub fn sources_for(&self, output: &SitePath) -> (r: PathSet)
        ensures
            r@ == set_under(self@, output@),
    {
        self.forward.get_or_empty(output)
    }

    /// Whether there is a record for `output`.
    pub fn has_output(&self, output: &SitePath) -> (r: bool)
        ensures
            r == self@.contains_key(output@),
    {
        self.forward.contains_key(output)
    }

    /// Returns true if `source` is tracked as a dependency of any output.
    pub fn is_known_source(&self, source: &SitePath) -> (r: bool)
        ensures
            r == exists|output: Seq<Seq<char>>| #[trigger]
                set_under(self@, output).contains(source@),
    {
        proof {
            use_type_invariant(self);
            let rev = self.reverse@;
            if rev.contains_key(source@) {
                let o = choose|o: Seq<Seq<char>>| rev[source@].contains(o);
                assert(rev[source@].contains(o)) by {
                    if forall|x: Seq<Seq<char>>| !rev[source@].contains(x) {
                        assert(rev[source@] =~= Set::<Seq<Seq<char>>>::empty());
                    }
                }
                assert(set_under(rev, source@).contains(o));
                assert(set_under(self.forward@, o).contains(source@));
                assert(set_under(self@, o).contains(source@));
            } else {
                assert forall|o: Seq<Seq<char>>| !(#[trigger] set_under(self@, o).contains(
                    source@,
                )) by {
                    assert(!set_under(rev, source@).contains(o));
                    assert(set_under(self.forward@, o).contains(source@) <==> set_under(
                        rev,
                        source@,
                    ).contains(o));
                }
            }
        }
        self.reverse.contains_key(source)
    }

    /// Merge another graph into this one (used after partial rebuild).
    /// For each output in `other`, replaces existing entries.
    pub fn merge(&mut self, other: DependencyGraph)
        ensures
            final(self)@ == old(self)@.union_prefer_right(other@),
    {
        let ghost start = self@;
        let ghost more = other@;
        proof {
            use_type_invariant(&other.forward);
        }
        let entries = &other.forward.entries;
        let ghost keys = keys_of(entries@);
        let mut i: usize = 0;
        proof {
            assert(start.union_prefer_right(more.restrict(keys.take(0).to_set())) =~= start);
        }
        while i < entries.len()
            invariant
                i <= entries.len(),
                keys == keys_of(entries@),
                path::all_distinct(keys),
                more == other.forward@,
                *entries == other.forward.entries,
                self@ == start.union_prefer_right(more.restrict(keys.take(i as int).to_set())),
            decreases entries.len() - i,
        {
            let entry = &entries[i];
            self.register(entry.0.clone(), entry.1.clone());
            proof {
                let k = keys[i as int];
                assert(k == entry.0@);
                lemma_index_of(keys, i as int);
                assert(more.contains_key(k) && more[k] == entry.1@);
                assert(keys.take(i + 1) =~= keys.take(i as int).push(k));
                path::lemma_push_set(keys.take(i as int), k);
                assert(start.union_prefer_right(
                    more.restrict(keys.take(i as int).to_set()),
                ).insert(k, entry.1@) =~= start.union_prefer_right(
                    more.restrict(keys.take(i + 1).to_set()),
                ));
            }
            i += 1;
        }
        proof {
            assert(keys.take(i as int) =~= keys);
            assert forall|p: Seq<Seq<char>>| more.contains_key(p) implies keys.to_set().contains(
                p,
            ) by {
                assert(keys.contains(p));
            }
            assert(more.restrict(keys.to_set()) =~= more);
        }
    }
}

/// After an output is registered, it is affected by exactly the sources that it
/// was registered with; what affects other outputs stays the same.
pub proof fn law_register_replaces(
    graph: Map<Seq<Seq<char>>, Set<Seq<Seq<char>>>>,
    output: Seq<Seq<char>>,
    sources: Set<Seq<Seq<char>>>,
    source: Seq<Seq<char>>,
    other: Seq<Seq<char>>,
)
    ensures
        outputs_of(graph.insert(output, sources), source).contains(output) <==> sources.contains(
            source,
        ),
        other != output ==> (outputs_of(graph.insert(output, sources), source).contains(other)
            <==> outputs_of(graph, source).contains(other)),
{
}

/// After an output is removed, no source affects it; what affects other outputs
/// stays the same.
pub proof fn law_remove_forgets(
    graph: Map<Seq<Seq<char>>, Set<Seq<Seq<char>>>>,
    output: Seq<Seq<char>>,
    source: Seq<Seq<char>>,
    other: Seq<Seq<char>>,
)
    ensures
        !outputs_of(graph.remove(output), source).contains(output),
        other != output ==> (outputs_of(graph.remove(output), source).contains(other)
            <==> outputs_of(graph, source).contains(other)),
{
}

/// A source affects an output exactly where it is among the output's sources.
pub proof fn law_affected_iff_source(
    graph: Map<Seq<Seq<char>>, Set<Seq<Seq<char>>>>,
    output: Seq<Seq<char>>,
    source: Seq<Seq<char>>,
)
    ensures
        outputs_of(graph, source).contains(output) <==> set_under(graph, output).contains(source),
{
}

/// After a merge, the outputs of the merged graph have its sources, and the
/// others have theirs.
pub proof fn law_merge_replaces(
    graph: Map<Seq<Seq<char>>, Set<Seq<Seq<char>>>>,
    other: Map<Seq<Seq<char>>, Set<Seq<Seq<char>>>>,
    output: Seq<Seq<char>>,
)
    ensures
        set_under(graph.union_prefer_right(other), output) == (if other.contains_key(output) {
            other[output]
        } else {
            set_under(graph, output)
        }),
{
}

} // verus!
