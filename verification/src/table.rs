//! Tables: lists of entries that are found again by their key.

use vstd::prelude::*;

use crate::path::SitePath;

verus! {

/// A type whose values are keys: two of them are the same where their views are.
pub trait Key: View + Sized {
    /// Whether the two keys are the same.
    fn same_key(&self, other: &Self) -> (r: bool)
        ensures
            r == (self@ == other@),
    ;
}

impl Key for String {
    fn same_key(&self, other: &Self) -> (r: bool) {
        *self == *other
    }
}

impl Key for SitePath {
    fn same_key(&self, other: &Self) -> (r: bool) {
        self.same_as(other)
    }
}

/// The place of the first entry with the given key, or the number of entries.
pub open spec fn place_of<K, V>(entries: Seq<(K, V)>, key: K) -> int
    decreases entries.len(),
{
    if entries.len() == 0 || entries[0].0 == key {
        0
    } else {
        1 + place_of(entries.skip(1), key)
    }
}

/// The value that is found by the given key.
pub open spec fn found<K, V>(entries: Seq<(K, V)>, key: K) -> Option<V> {
    let at = place_of(entries, key);
    if 0 <= at < entries.len() {
        Some(entries[at].1)
    } else {
        None
    }
}

/// Whether an entry has the given key.
pub open spec fn has_key<K, V>(entries: Seq<(K, V)>, key: K) -> bool {
    found(entries, key) is Some
}

/// The entries once the given key leads to the given value: a key that is new
/// comes last, one that is known stays in its place.
pub open spec fn with_entry<K, V>(entries: Seq<(K, V)>, key: K, value: V) -> Seq<(K, V)> {
    let at = place_of(entries, key);
    if 0 <= at < entries.len() {
        entries.update(at, (key, value))
    } else {
        entries.push((key, value))
    }
}

/// The entries with any other key.
pub open spec fn without_key<K, V>(entries: Seq<(K, V)>, key: K) -> Seq<(K, V)>
    decreases entries.len(),
{
    if entries.len() == 0 {
        entries
    } else if entries[0].0 == key {
        without_key(entries.skip(1), key)
    } else {
        seq![entries[0]] + without_key(entries.skip(1), key)
    }
}

/// The keys of the entries, in order.
pub open spec fn keys_of<K, V>(entries: Seq<(K, V)>) -> Seq<K> {
    entries.map_values(|e: (K, V)| e.0)
}

/// The place is that of the first entry with the key, if there is one.
pub proof fn lemma_place_of<K, V>(entries: Seq<(K, V)>, key: K)
    ensures
        0 <= place_of(entries, key) <= entries.len(),
        place_of(entries, key) < entries.len() ==> entries[place_of(entries, key)].0 == key,
        forall|k: int| 0 <= k < place_of(entries, key) ==> (#[trigger] entries[k]).0 != key,
    decreases entries.len(),
{
    if entries.len() > 0 && entries[0].0 != key {
        lemma_place_of(entries.skip(1), key);
        assert forall|k: int| 0 <= k < place_of(entries, key) implies (#[trigger] entries[k]).0
            != key by {
            if k > 0 {
                assert(entries.skip(1)[k - 1] == entries[k]);
            }
        }
    }
}

/// A place with the key is the first where no entry before it has the key.
pub proof fn lemma_place_is<K, V>(entries: Seq<(K, V)>, key: K, at: int)
    requires
        0 <= at <= entries.len(),
        at < entries.len() ==> entries[at].0 == key,
        forall|k: int| 0 <= k < at ==> (#[trigger] entries[k]).0 != key,
    ensures
        place_of(entries, key) == at,
{
    lemma_place_of(entries, key);
    let n = place_of(entries, key);
    if n < at {
        assert(entries[n].0 == key);
    } else if at < n {
        assert(entries[at].0 != key);
    }
}

/// A key has the same place in tables with the same keys, which have the same keys
/// once it was entered.
pub proof fn lemma_same_keys<K, V>(
    a: Seq<(K, V)>,
    b: Seq<(K, V)>,
    key: K,
    x: V,
    y: V,
)
    requires
        keys_of(a) == keys_of(b),
    ensures
        place_of(a, key) == place_of(b, key),
        keys_of(with_entry(a, key, x)) == keys_of(with_entry(b, key, y)),
{
    lemma_place_of(a, key);
    let at = place_of(a, key);
    assert(a.len() == keys_of(a).len());
    assert(b.len() == keys_of(b).len());
    assert forall|k: int| 0 <= k < at implies (#[trigger] b[k]).0 != key by {
        assert(keys_of(a)[k] == a[k].0);
        assert(keys_of(b)[k] == b[k].0);
    }
    if at < a.len() {
        assert(keys_of(a)[at] == a[at].0);
        assert(keys_of(b)[at] == b[at].0);
    }
    lemma_place_is(b, key, at);
    let c = keys_of(with_entry(a, key, x));
    let d = keys_of(with_entry(b, key, y));
    assert forall|k: int| 0 <= k < c.len() implies c[k] == d[k] by {
        if k < a.len() {
            assert(keys_of(a)[k] == a[k].0);
            assert(keys_of(b)[k] == b[k].0);
        }
    }
    assert(c =~= d);
}

/// A value is found again by the key that it was entered under.
pub proof fn law_entry_is_found<K, V>(entries: Seq<(K, V)>, key: K, value: V)
    ensures
        found(with_entry(entries, key, value), key) == Some(value),
{
    lemma_place_of(entries, key);
    let after = with_entry(entries, key, value);
    let at = place_of(entries, key);
    assert forall|k: int| 0 <= k < at implies (#[trigger] after[k]).0 != key by {
        assert(after[k] == entries[k]);
    }
    lemma_place_is(after, key, at);
}

/// Entering a value leaves what any other key leads to unchanged.
pub proof fn law_entry_keeps_others<K, V>(entries: Seq<(K, V)>, key: K, value: V, other: K)
    requires
        other != key,
    ensures
        found(with_entry(entries, key, value), other) == found(entries, other),
{
    lemma_place_of(entries, key);
    lemma_place_of(entries, other);
    let after = with_entry(entries, key, value);
    let at = place_of(entries, other);
    if at < entries.len() {
        assert(after[at] == entries[at]);
        assert forall|k: int| 0 <= k < at implies (#[trigger] after[k]).0 != other by {
            assert(entries[k].0 != other);
        }
        lemma_place_is(after, other, at);
    } else {
        assert forall|k: int| 0 <= k < after.len() implies (#[trigger] after[k]).0 != other by {
            if k < entries.len() {
                assert(entries[k].0 != other);
            }
        }
        lemma_place_is(after, other, after.len() as int);
    }
}

/// A key leads nowhere once it was removed.
pub proof fn law_removed_key_is_gone<K, V>(entries: Seq<(K, V)>, key: K)
    ensures
        found(without_key(entries, key), key) is None,
    decreases entries.len(),
{
    lemma_without_key(entries, key);
    lemma_place_is(without_key(entries, key), key, without_key(entries, key).len() as int);
}

/// No entry has a key that was removed.
pub proof fn lemma_without_key<K, V>(entries: Seq<(K, V)>, key: K)
    ensures
        forall|k: int|
            0 <= k < without_key(entries, key).len() ==> (#[trigger] without_key(entries, key)[k]).0
                != key,
    decreases entries.len(),
{
    if entries.len() > 0 {
        lemma_without_key(entries.skip(1), key);
        let rest = without_key(entries.skip(1), key);
        let all = without_key(entries, key);
        if entries[0].0 != key {
            assert forall|k: int| 0 <= k < all.len() implies (#[trigger] all[k]).0 != key by {
                if k > 0 {
                    assert(all[k] == rest[k - 1]);
                }
            }
        }
    }
}

/// What is left once a key was removed was there before.
pub proof fn lemma_kept_was_there<K, V>(entries: Seq<(K, V)>, key: K, k: int)
    requires
        0 <= k < without_key(entries, key).len(),
    ensures
        entries.contains(without_key(entries, key)[k]),
    decreases entries.len(),
{
    let tail = entries.skip(1);
    let kept = without_key(entries, key);
    if entries[0].0 == key {
        lemma_kept_was_there(tail, key, k);
        let at = choose|at: int| 0 <= at < tail.len() && tail[at] == kept[k];
        assert(entries[at + 1] == kept[k]);
    } else if k == 0 {
        assert(entries[0] == kept[0]);
    } else {
        lemma_kept_was_there(tail, key, k - 1);
        let at = choose|at: int| 0 <= at < tail.len() && tail[at] == kept[k];
        assert(entries[at + 1] == kept[k]);
    }
}

/// Removing a key leaves what any other key leads to unchanged.
pub proof fn law_removal_keeps_others<K, V>(entries: Seq<(K, V)>, key: K, other: K)
    requires
        other != key,
    ensures
        found(without_key(entries, key), other) == found(entries, other),
    decreases entries.len(),
{
    if entries.len() > 0 {
        law_removal_keeps_others(entries.skip(1), key, other);
        let tail = entries.skip(1);
        let rest = without_key(tail, key);
        let all = without_key(entries, key);
        lemma_place_of(tail, other);
        lemma_place_of(rest, other);
        if entries[0].0 != key {
            assert(all.skip(1) =~= rest);
            if entries[0].0 != other {
                let at = place_of(rest, other);
                if at < rest.len() {
                    assert(all[at + 1] == rest[at]);
                }
                let from = place_of(tail, other);
                if from < tail.len() {
                    assert(entries[from + 1] == tail[from]);
                }
            }
        } else {
            let from = place_of(tail, other);
            if from < tail.len() {
                assert(entries[from + 1] == tail[from]);
            }
        }
    }
}

/// The entries with each value seen through a function.
pub open spec fn seen_through<K, V, W>(entries: Seq<(K, V)>, f: spec_fn(V) -> W) -> Seq<(K, W)> {
    entries.map_values(|e: (K, V)| (e.0, f(e.1)))
}

/// Seeing the values through a function changes no place.
pub proof fn lemma_seen_place<K, V, W>(entries: Seq<(K, V)>, f: spec_fn(V) -> W, key: K)
    ensures
        place_of(seen_through(entries, f), key) == place_of(entries, key),
{
    lemma_place_of(entries, key);
    let seen = seen_through(entries, f);
    assert forall|k: int| 0 <= k < place_of(entries, key) implies (#[trigger] seen[k]).0 != key by {
        assert(entries[k].0 != key);
    }
    lemma_place_is(seen, key, place_of(entries, key));
}

/// What is found is seen through the function.
pub proof fn lemma_seen_found<K, V, W>(entries: Seq<(K, V)>, f: spec_fn(V) -> W, key: K)
    ensures
        found(seen_through(entries, f), key) == match found(entries, key) {
            Some(v) => Some(f(v)),
            None => None,
        },
{
    lemma_seen_place(entries, f, key);
    lemma_place_of(entries, key);
}

/// Entering a value and seeing it through a function is entering what is seen.
pub proof fn lemma_seen_entry<K, V, W>(
    entries: Seq<(K, V)>,
    f: spec_fn(V) -> W,
    key: K,
    value: V,
)
    ensures
        seen_through(with_entry(entries, key, value), f) == with_entry(
            seen_through(entries, f),
            key,
            f(value),
        ),
{
    lemma_seen_place(entries, f, key);
    lemma_place_of(entries, key);
    assert(seen_through(with_entry(entries, key, value), f) =~= with_entry(
        seen_through(entries, f),
        key,
        f(value),
    ));
}

/// Removing a key and seeing the values through a function go together.
pub proof fn lemma_seen_removal<K, V, W>(entries: Seq<(K, V)>, f: spec_fn(V) -> W, key: K)
    ensures
        seen_through(without_key(entries, key), f) == without_key(seen_through(entries, f), key),
    decreases entries.len(),
{
    if entries.len() == 0 {
        assert(seen_through(entries, f) =~= Seq::empty());
    } else {
        lemma_seen_removal(entries.skip(1), f, key);
        assert(seen_through(entries.skip(1), f) =~= seen_through(entries, f).skip(1));
        let rest = without_key(entries.skip(1), key);
        assert(seen_through(seq![entries[0]] + rest, f) =~= seq![(entries[0].0, f(entries[0].1))]
            + seen_through(rest, f));
    }
}

/// Whether no key occurs twice among the entries.
pub open spec fn distinct_keys<K, V>(entries: Seq<(K, V)>) -> bool {
    forall|i: int, j: int|
        0 <= i < j < entries.len() ==> (#[trigger] entries[i]).0 != (#[trigger] entries[j]).0
}

/// Entering a value makes no key occur twice.
pub proof fn lemma_entry_keeps_distinct<K, V>(entries: Seq<(K, V)>, key: K, value: V)
    requires
        distinct_keys(entries),
    ensures
        distinct_keys(with_entry(entries, key, value)),
{
    lemma_place_of(entries, key);
    let after = with_entry(entries, key, value);
    let at = place_of(entries, key);
    assert forall|i: int, j: int| 0 <= i < j < after.len() implies (#[trigger] after[i]).0 != (
    #[trigger] after[j]).0 by {
        if at < entries.len() {
            assert(after[i].0 == entries[i].0);
            assert(after[j].0 == entries[j].0);
        } else {
            assert(after[i] == entries[i]);
            if j < entries.len() {
                assert(after[j] == entries[j]);
            }
        }
    }
}

/// Removing a key makes no key occur twice.
pub proof fn lemma_removal_keeps_distinct<K, V>(entries: Seq<(K, V)>, key: K)
    requires
        distinct_keys(entries),
    ensures
        distinct_keys(without_key(entries, key)),
    decreases entries.len(),
{
    if entries.len() > 0 {
        let tail = entries.skip(1);
        assert forall|i: int, j: int| 0 <= i < j < tail.len() implies (#[trigger] tail[i]).0 != (
        #[trigger] tail[j]).0 by {
            assert(tail[i] == entries[i + 1]);
            assert(tail[j] == entries[j + 1]);
        }
        lemma_removal_keeps_distinct(tail, key);
        let rest = without_key(tail, key);
        let all = without_key(entries, key);
        if entries[0].0 != key {
            assert forall|i: int, j: int| 0 <= i < j < all.len() implies (#[trigger] all[i]).0 != (
            #[trigger] all[j]).0 by {
                assert(all[j] == rest[j - 1]);
                if i > 0 {
                    assert(all[i] == rest[i - 1]);
                } else {
                    lemma_kept_was_there(tail, key, j - 1);
                    let at = choose|at: int| 0 <= at < tail.len() && tail[at] == rest[j - 1];
                    assert(entries[at + 1] == rest[j - 1]);
                    assert(entries[0].0 != entries[at + 1].0);
                }
            }
        }
    }
}

/// A list of entries that are found again by their key. No key occurs twice.
#[derive(Debug)]
pub struct Table<K: Key, V> {
    entries: Vec<(K, V)>,
}

/// What the entries of a table hold: the views of the keys, and the values.
pub open spec fn entry_views<K: View, V>(entries: Seq<(K, V)>) -> Seq<(K::V, V)> {
    entries.map_values(|e: (K, V)| (e.0@, e.1))
}

impl<K: Key, V> View for Table<K, V> {
    type V = Seq<(K::V, V)>;

    closed spec fn view(&self) -> Seq<(K::V, V)> {
        entry_views(self.entries@)
    }
}

impl<K: Key, V> Table<K, V> {
    #[verifier::type_invariant]
    spec fn has_distinct_keys(self) -> bool {
        distinct_keys(entry_views(self.entries@))
    }

    /// The table without entries.
    pub fn new() -> (r: Self)
        ensures
            r@ == Seq::<(K::V, V)>::empty(),
    {
        let entries: Vec<(K, V)> = Vec::new();
        let r = Table { entries };
        proof {
            assert(r@ =~= Seq::<(K::V, V)>::empty());
        }
        r
    }

    /// The number of entries, which have different keys.
    pub fn len(&self) -> (r: usize)
        ensures
            r == self@.len(),
            distinct_keys(self@),
    {
        proof {
            use_type_invariant(self);
        }
        self.entries.len()
    }

    /// The entry at an index.
    pub fn entry(&self, i: usize) -> (r: &(K, V))
        requires
            i < self@.len(),
        ensures
            self@[i as int] == (r.0@, r.1),
    {
        &self.entries[i]
    }

    /// The place of the entry with the given key, or the number of entries.
    pub fn position(&self, key: &K) -> (r: usize)
        ensures
            r == place_of(self@, key@),
            r <= self@.len(),
    {
        let mut i: usize = 0;
        while i < self.entries.len()
            invariant
                i <= self.entries.len(),
                forall|k: int| 0 <= k < i ==> (#[trigger] self@[k]).0 != key@,
            decreases self.entries.len() - i,
        {
            proof {
                assert(self@[i as int] == (self.entries@[i as int].0@, self.entries@[i as int].1));
            }
            if self.entries[i].0.same_key(key) {
                proof {
                    lemma_place_is(self@, key@, i as int);
                }
                return i;
            }
            i += 1;
        }
        proof {
            lemma_place_is(self@, key@, i as int);
        }
        i
    }

    /// The value that is found by the given key.
    pub fn get(&self, key: &K) -> (r: Option<&V>)
        ensures
            match r {
                Some(v) => found(self@, key@) == Some(*v),
                None => found(self@, key@) is None,
            },
    {
        let at = self.position(key);
        if at < self.entries.len() {
            proof {
                assert(self@[at as int].1 == self.entries@[at as int].1);
            }
            Some(&self.entries[at].1)
        } else {
            None
        }
    }

    /// Whether an entry has the given key.
    pub fn contains_key(&self, key: &K) -> (r: bool)
        ensures
            r == has_key(self@, key@),
    {
        self.get(key).is_some()
    }

    /// Let the given key lead to the given value.
    pub fn insert(&mut self, key: K, value: V)
        ensures
            final(self)@ == with_entry(old(self)@, key@, value),
    {
        let at = self.position(&key);
        let ghost before = self@;
        proof {
            use_type_invariant(&*self);
            lemma_entry_keeps_distinct(before, key@, value);
        }
        let mut entries: Vec<(K, V)> = Vec::new();
        proof {
            assert(distinct_keys(entry_views(entries@)));
        }
        std::mem::swap(&mut entries, &mut self.entries);
        let ghost view = (key@, value);
        if at < entries.len() {
            entries.set(at, (key, value));
            proof {
                assert(entry_views(entries@) =~= before.update(at as int, view));
            }
        } else {
            entries.push((key, value));
            proof {
                assert(entry_views(entries@) =~= before.push(view));
            }
        }
        self.entries = entries;
    }

    /// Remove the given key and what it leads to.
    pub fn remove(&mut self, key: &K)
        ensures
            final(self)@ == without_key(old(self)@, key@),
    {
        let ghost before = self@;
        proof {
            use_type_invariant(&*self);
            lemma_removal_keeps_distinct(before, key@);
        }
        let mut entries: Vec<(K, V)> = Vec::new();
        proof {
            assert(distinct_keys(entry_views(entries@)));
        }
        std::mem::swap(&mut entries, &mut self.entries);
        let mut i: usize = 0;
        proof {
            assert(before.skip(0) =~= before);
            assert(before.take(0) + without_key(before.skip(0), key@) =~= without_key(
                before,
                key@,
            ));
        }
        while i < entries.len()
            invariant
                i <= entries.len(),
                without_key(before, key@) == entry_views(entries@).take(i as int) + without_key(
                    entry_views(entries@).skip(i as int),
                    key@,
                ),
            decreases entries.len() - i,
        {
            let ghost now = entry_views(entries@);
            proof {
                assert(now[i as int] == (entries@[i as int].0@, entries@[i as int].1));
                assert(now.skip(i as int)[0] == now[i as int]);
                assert(now.skip(i as int).skip(1) =~= now.skip(i + 1));
            }
            if entries[i].0.same_key(key) {
                let _ = entries.remove(i);
                proof {
                    let left = entry_views(entries@);
                    assert(left =~= now.remove(i as int));
                    assert(left.take(i as int) =~= now.take(i as int));
                    assert(left.skip(i as int) =~= now.skip(i + 1));
                }
            } else {
                proof {
                    assert(now.take(i as int) + (seq![now[i as int]] + without_key(
                        now.skip(i + 1),
                        key@,
                    )) =~= now.take(i + 1) + without_key(now.skip(i + 1), key@));
                }
                i += 1;
            }
        }
        proof {
            let left = entry_views(entries@);
            assert(left.skip(i as int) =~= Seq::empty());
            assert(left.take(i as int) + without_key(left.skip(i as int), key@) =~= left);
        }
        self.entries = entries;
    }
}

/// A key that is known stays in its place when it is entered again, and a new one comes
/// last; the other entries stay where they are.
pub proof fn law_entries_keep_their_places<K, V>(entries: Seq<(K, V)>, key: K, value: V, k: int)
    ensures
        !has_key(entries, key) ==> with_entry(entries, key, value) == entries.push((key, value)),
        0 <= k < entries.len() && entries[k].0 != key ==> with_entry(entries, key, value)[k]
            == entries[k],
        has_key(entries, key) ==> with_entry(entries, key, value).len() == entries.len(),
        0 <= k < entries.len() ==> with_entry(entries, key, value)[k].0 == entries[k].0,
{
    lemma_place_of(entries, key);
}

/// What is found under a key is the value of the first entry with that key.
pub proof fn law_first_entry_is_found<K, V>(entries: Seq<(K, V)>, key: K, k: int)
    requires
        0 <= k <= entries.len(),
        forall|j: int| 0 <= j < k ==> (#[trigger] entries[j]).0 != key,
    ensures
        k < entries.len() && entries[k].0 == key ==> found(entries, key) == Some(entries[k].1),
        k == entries.len() ==> found(entries, key) is None,
{
    lemma_place_of(entries, key);
    let at = place_of(entries, key);
    if at < k {
        assert(entries[at].0 != key);
    }
    if k < at && k < entries.len() {
        assert(entries[k].0 != key);
    }
}

} // verus!
