//! The files that the program wrote itself.

use vstd::prelude::*;

use crate::path;
use crate::path::SitePath;

verus! {

/// What is kept of a write: the modification time that the file had right
/// after it, and when it happened.
#[derive(Debug, Clone, Copy, PartialEq, Eq, Structural)]
pub struct Write {
    /// The modification time of the file, in nanoseconds from some fixed point.
    pub mtime: i128,
    /// When the file was written, in nanoseconds of a clock that does not run
    /// backwards.
    pub written_at: u128,
}

/// The keys of a list of writes.
spec fn keys_of(writes: Seq<(SitePath, Write)>) -> Seq<Seq<Seq<char>>> {
    writes.map_values(|w: (SitePath, Write)| w.0@)
}

/// How long ago something was: nothing, where it is still to come.
pub open spec fn elapsed(now: u128, then_: u128) -> int {
    if now >= then_ {
        now - then_
    } else {
        0
    }
}

/// Tracks paths that the program has written itself, so that a file watcher can
/// tell the events that its own writes cause from edits by others.
///
/// An event is suppressed only when the path was written within the retention
/// window and the modification time is the one that was recorded. An edit by
/// someone else will almost always bring a different modification time, so it
/// is still noticed within the window.
#[derive(Debug)]
pub struct SelfWriteTracker {
    writes: Vec<(SitePath, Write)>,
    retention: u128,
}

impl View for SelfWriteTracker {
    type V = Map<Seq<Seq<char>>, Write>;

    closed spec fn view(&self) -> Map<Seq<Seq<char>>, Write> {
        Map::new(
            |p: Seq<Seq<char>>| keys_of(self.writes@).contains(p),
            |p: Seq<Seq<char>>| self.writes@[keys_of(self.writes@).index_of(p)].1,
        )
    }
}

/// Whether a write lies within the retention window.
pub open spec fn is_recent(write: Write, now: u128, retention: u128) -> bool {
    elapsed(now, write.written_at) < retention
}

/// The writes that are kept when a path is recorded: those within the window,
/// and the new one.
pub open spec fn recorded(
    writes: Map<Seq<Seq<char>>, Write>,
    path: Seq<Seq<char>>,
    mtime: i128,
    now: u128,
    retention: u128,
) -> Map<Seq<Seq<char>>, Write> {
    writes.restrict(
        Set::new(|p: Seq<Seq<char>>| writes.contains_key(p) && is_recent(writes[p], now, retention)),
    ).insert(path, Write { mtime, written_at: now })
}

/// Whether an event for a path is to be ignored.
pub open spec fn ignored(
    writes: Map<Seq<Seq<char>>, Write>,
    path: Seq<Seq<char>>,
    mtime: i128,
    now: u128,
    retention: u128,
) -> bool {
    writes.contains_key(path) && is_recent(writes[path], now, retention) && writes[path].mtime
        == mtime
}

/// Whether a write is one of the first `n` writes, recent and of another path.
spec fn is_kept(
    writes: Seq<(SitePath, Write)>,
    n: int,
    entry: (SitePath, Write),
    path: Seq<Seq<char>>,
    now: u128,
    retention: u128,
) -> bool {
    exists|j: int|
        0 <= j < n && (#[trigger] writes[j]).0@ == entry.0@ && writes[j].1 == entry.1
            && writes[j].0@ != path && is_recent(writes[j].1, now, retention)
}

/// In a list without repetitions, the index of an item is where it stands.
proof fn lemma_index_of(keys: Seq<Seq<Seq<char>>>, i: int)
    requires
        path::all_distinct(keys),
        0 <= i < keys.len(),
    ensures
        keys.index_of(keys[i]) == i,
        keys.contains(keys[i]),
{
    let j = keys.index_of(keys[i]);
    assert(keys.contains(keys[i]));
    if j < i {
        assert(keys[j] != keys[i]);
    }
    if i < j {
        assert(keys[i] != keys[j]);
    }
}

/// Whether a write lies within the retention window.
fn recent(write: &Write, now: u128, retention: u128) -> (r: bool)
    ensures
        r == is_recent(*write, now, retention),
{
    let age: u128 = if now >= write.written_at {
        now - write.written_at
    } else {
        0
    };
    age < retention
}

impl SelfWriteTracker {
    #[verifier::type_invariant]
    spec fn distinct_keys(self) -> bool {
        path::all_distinct(keys_of(self.writes@))
    }

    /// How long an event is suppressed after a write, in nanoseconds.
    pub closed spec fn window(&self) -> u128 {
        self.retention
    }

    /// Create a tracker with the given retention window, in nanoseconds.
    ///
    /// Events are suppressed for at most `retention` after the write.
    pub fn new(retention: u128) -> (r: Self)
        ensures
            r@ == Map::<Seq<Seq<char>>, Write>::empty(),
            r.window() == retention,
    {
        let writes: Vec<(SitePath, Write)> = Vec::new();
        let r = SelfWriteTracker { writes, retention };
        proof {
            assert(r@ =~= Map::empty());
        }
        r
    }

    /// Record that `path` was written at `now` and has the modification time
    /// `mtime` since.
    ///
    /// Writes that have left the window are dropped on every call.
    pub fn record(&mut self, path: SitePath, mtime: i128, now: u128)
        ensures
            final(self)@ == recorded(old(self)@, path@, mtime, now, old(self).window()),
            final(self).window() == old(self).window(),
    {
        proof {
            use_type_invariant(&*self);
        }
        let ghost before = self.writes@;
        let ghost map = self@;
        let ghost keys = keys_of(before);
        let retention = self.retention;
        let mut kept: Vec<(SitePath, Write)> = Vec::new();
        let mut i: usize = 0;
        while i < self.writes.len()
            invariant
                i <= self.writes.len(),
                before == self.writes@,
                keys == keys_of(before),
                path::all_distinct(keys),
                path::all_distinct(keys_of(kept@)),
                forall|k: int|
                    0 <= k < kept.len() ==> is_kept(
                        before,
                        i as int,
                        #[trigger] kept@[k],
                        path@,
                        now,
                        retention,
                    ),
                forall|j: int|
                    0 <= j < i && is_recent((#[trigger] before[j]).1, now, retention)
                        && before[j].0@ != path@ ==> keys_of(kept@).contains(before[j].0@),
            decreases self.writes.len() - i,
        {
            let entry = &self.writes[i];
            let ghost so_far = kept@;
            if recent(&entry.1, now, retention) && !entry.0.same_as(&path) {
                kept.push((entry.0.clone(), entry.1));
                proof {
                    let old_keys = keys_of(so_far);
                    let here = entry.0@;
                    assert(keys_of(kept@) =~= old_keys.push(here));
                    assert forall|a: int, b: int| 0 <= a < b < old_keys.push(here).len() implies old_keys.push(
                    here)[a] != old_keys.push(here)[b] by {
                        if b == old_keys.len() {
                            assert(is_kept(before, i as int, so_far[a], path@, now, retention));
                            let j = choose|j: int|
                                0 <= j < i && (#[trigger] before[j]).0@ == so_far[a].0@;
                            assert(keys[j] != keys[i as int]);
                        }
                    }
                    assert forall|j: int|
                        0 <= j < i + 1 && is_recent((#[trigger] before[j]).1, now, retention)
                            && before[j].0@ != path@ implies keys_of(kept@).contains(
                        before[j].0@,
                    ) by {
                        path::lemma_push_set(old_keys, here);
                        if j < i {
                            assert(old_keys.to_set().contains(before[j].0@));
                        }
                        assert(keys_of(kept@).to_set().contains(before[j].0@));
                    }
                }
            }
            proof {
                assert forall|k: int| 0 <= k < kept.len() implies is_kept(
                    before,
                    i + 1,
                    #[trigger] kept@[k],
                    path@,
                    now,
                    retention,
                ) by {
                    if k < so_far.len() {
                        assert(kept@[k] == so_far[k]);
                        assert(is_kept(before, i as int, so_far[k], path@, now, retention));
                    } else {
                        assert(before[i as int].0@ == kept@[k].0@);
                    }
                }
            }
            i += 1;
        }
        let ghost inner = kept@;
        let ghost p = path@;
        kept.push((path, Write { mtime, written_at: now }));
        proof {
            let inner_keys = keys_of(inner);
            let all = inner_keys.push(p);
            assert(keys_of(kept@) =~= all);
            assert forall|a: int, b: int| 0 <= a < b < all.len() implies all[a] != all[b] by {
                if b == inner_keys.len() {
                    assert(is_kept(before, i as int, inner[a], p, now, retention));
                    assert(inner[a].0@ != p);
                }
            }
            let result = Map::new(
                |q: Seq<Seq<char>>| keys_of(kept@).contains(q),
                |q: Seq<Seq<char>>| kept@[keys_of(kept@).index_of(q)].1,
            );
            let wanted = recorded(map, p, mtime, now, retention);
            path::lemma_push_set(inner_keys, p);
            assert forall|q: Seq<Seq<char>>| result.contains_key(q) <==> wanted.contains_key(q) by {
                assert(all.to_set().contains(q) <==> inner_keys.to_set().insert(p).contains(q));
                if inner_keys.contains(q) {
                    let k = inner_keys.index_of(q);
                    assert(inner[k].0@ == q);
                    assert(kept@[k] == inner[k]);
                    assert(is_kept(before, i as int, inner[k], p, now, retention));
                    let j = choose|j: int|
                        0 <= j < i && (#[trigger] before[j]).0@ == inner[k].0@ && before[j].1
                            == inner[k].1 && is_recent(before[j].1, now, retention);
                    assert(keys[j] == q);
                    lemma_index_of(keys, j);
                }
                if map.contains_key(q) && is_recent(map[q], now, retention) && q != p {
                    let j = keys.index_of(q);
                    assert(0 <= j < keys.len() && keys[j] == q);
                    assert(before[j].0@ == q);
                    assert(keys_of(inner).contains(q));
                }
            }
            assert forall|q: Seq<Seq<char>>| result.contains_key(q) implies result[q]
                == wanted[q] by {
                if q == p {
                    lemma_index_of(all, inner_keys.len() as int);
                } else {
                    assert(inner_keys.to_set().contains(q)) by {
                        assert(all.to_set().contains(q));
                    }
                    let k = inner_keys.index_of(q);
                    assert(all[k] == q);
                    lemma_index_of(all, k);
                    assert(kept@[k] == inner[k]);
                    assert(is_kept(before, i as int, inner[k], p, now, retention));
                    let j = choose|j: int|
                        0 <= j < i && (#[trigger] before[j]).0@ == inner[k].0@ && before[j].1
                            == inner[k].1;
                    assert(keys[j] == q);
                    lemma_index_of(keys, j);
                }
            }
            assert(result =~= wanted);
        }
        self.writes = kept;
    }

    /// Returns `true` if the watcher should ignore an event at `now` for `path`
    /// whose modification time is `current_mtime`.
    ///
    /// It should where the path was recorded within the retention window and the
    /// modification time is the one that was recorded.
    pub fn should_ignore(&self, path: &SitePath, current_mtime: i128, now: u128) -> (r: bool)
        ensures
            r == ignored(self@, path@, current_mtime, now, self.window()),
    {
        proof {
            use_type_invariant(self);
        }
        let ghost keys = keys_of(self.writes@);
        let mut i: usize = 0;
        while i < self.writes.len()
            invariant
                i <= self.writes.len(),
                keys == keys_of(self.writes@),
                path::all_distinct(keys),
                forall|k: int| 0 <= k < i ==> (#[trigger] self.writes@[k]).0@ != path@,
            decreases self.writes.len() - i,
        {
            let entry = &self.writes[i];
            if entry.0.same_as(path) {
                proof {
                    assert(keys[i as int] == path@);
                    lemma_index_of(keys, i as int);
                }
                return recent(&entry.1, now, self.retention) && entry.1.mtime == current_mtime;
            }
            i += 1;
        }
        proof {
            assert forall|k: int| 0 <= k < keys.len() implies keys[k] != path@ by {
                assert(keys[k] == self.writes@[k].0@);
            }
        }
        false
    }
}

/// Right after a write is recorded, an event within the window is ignored
/// exactly where it brings the recorded modification time; past the window no
/// event is.
pub proof fn law_recorded_write_is_ignored(
    writes: Map<Seq<Seq<char>>, Write>,
    path: Seq<Seq<char>>,
    mtime: i128,
    now: u128,
    retention: u128,
    event_mtime: i128,
    later: u128,
)
    ensures
        ignored(recorded(writes, path, mtime, now, retention), path, event_mtime, later, retention)
            <==> event_mtime == mtime && elapsed(later, now) < retention,
{
}

/// Recording a write does not make an event for another path be ignored, and
/// drops no write that an event could still be ignored for.
pub proof fn law_recording_keeps_recent_writes(
    writes: Map<Seq<Seq<char>>, Write>,
    path: Seq<Seq<char>>,
    mtime: i128,
    now: u128,
    retention: u128,
    other: Seq<Seq<char>>,
    event_mtime: i128,
    later: u128,
)
    requires
        other != path,
        now <= later,
    ensures
        ignored(recorded(writes, path, mtime, now, retention), other, event_mtime, later, retention)
            <==> ignored(writes, other, event_mtime, later, retention),
{
}

/// A write is ignored for as long as the window lasts and no longer: an event on the same
/// path with the same time of change, that much later.
pub proof fn law_window_of_a_write(
    writes: Map<Seq<Seq<char>>, Write>,
    path: Seq<Seq<char>>,
    mtime: i128,
    now: u128,
    retention: u128,
    later: u128,
)
    requires
        now <= later,
    ensures
        ignored(recorded(writes, path, mtime, now, retention), path, mtime, later, retention)
            <==> later - now < retention,
        forall|other: i128|
            other != mtime ==> !#[trigger] ignored(
                recorded(writes, path, mtime, now, retention),
                path,
                other,
                later,
                retention,
            ),
{
}

/// To record a write forgets those that are no longer recent, and only those.
pub proof fn law_old_writes_are_forgotten(
    writes: Map<Seq<Seq<char>>, Write>,
    path: Seq<Seq<char>>,
    mtime: i128,
    now: u128,
    retention: u128,
    other: Seq<Seq<char>>,
)
    requires
        other != path,
        writes.contains_key(other),
        writes[other].written_at <= now,
    ensures
        recorded(writes, path, mtime, now, retention).contains_key(other) <==> now
            - writes[other].written_at < retention,
        recorded(writes, path, mtime, now, retention).contains_key(other) ==> recorded(
            writes,
            path,
            mtime,
            now,
            retention,
        )[other] == writes[other],
        recorded(writes, path, mtime, now, retention)[path] == (Write { mtime, written_at: now }),
{
}

} // verus!
