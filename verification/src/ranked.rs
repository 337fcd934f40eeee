//! Sorted lists in which nothing occurs twice.

use vstd::prelude::*;

use crate::order;
use crate::order::less_or_same;

verus! {

/// A type whose values have a total order, which their views decide.
pub trait Ranked: View + Sized {
    /// Whether `a` is the same as `b` or comes before it.
    spec fn ranks(a: Self::V, b: Self::V) -> bool;

    /// Whether this value is the same as the other or comes before it.
    fn ranks_first(&self, other: &Self) -> (r: bool)
        ensures
            r == Self::ranks(self@, other@),
    ;

    /// Of two values one comes first.
    proof fn ranks_total(a: Self::V, b: Self::V)
        ensures
            Self::ranks(a, b) || Self::ranks(b, a),
    ;

    /// The order is transitive.
    proof fn ranks_transitive(a: Self::V, b: Self::V, c: Self::V)
        requires
            Self::ranks(a, b),
            Self::ranks(b, c),
        ensures
            Self::ranks(a, c),
    ;

    /// Two values that both come first are the same.
    proof fn ranks_antisymmetric(a: Self::V, b: Self::V)
        requires
            Self::ranks(a, b),
            Self::ranks(b, a),
        ensures
            a == b,
    ;
}

impl Ranked for String {
    open spec fn ranks(a: Seq<char>, b: Seq<char>) -> bool {
        order::text_le(a, b)
    }

    fn ranks_first(&self, other: &Self) -> (r: bool) {
        less_or_same(self.as_str(), other.as_str())
    }

    proof fn ranks_total(a: Seq<char>, b: Seq<char>) {
        order::lemma_text_le_total(a, b);
    }

    proof fn ranks_transitive(a: Seq<char>, b: Seq<char>, c: Seq<char>) {
        order::lemma_text_le_transitive(a, b, c);
    }

    proof fn ranks_antisymmetric(a: Seq<char>, b: Seq<char>) {
        order::lemma_text_le_antisymmetric(a, b);
    }
}

/// The views of a list.
pub open spec fn views<T: View>(list: Seq<T>) -> Seq<T::V> {
    list.map_values(|t: T| t@)
}

/// Whether a list is sorted and holds nothing twice.
pub open spec fn in_rank<T: Ranked>(list: Seq<T::V>) -> bool {
    forall|i: int, j: int|
        0 <= i < j < list.len() ==> T::ranks(#[trigger] list[i], #[trigger] list[j]) && list[i]
            != list[j]
}

/// Put a value into a sorted list, where it is not there yet.
fn add_ranked<T: Ranked>(list: &mut Vec<T>, item: T)
    requires
        in_rank::<T>(views(old(list)@)),
    ensures
        in_rank::<T>(views(final(list)@)),
        views(final(list)@).to_set() == views(old(list)@).to_set().insert(item@),
{
    let ghost before = views(list@);
    let mut at: usize = 0;
    while at < list.len() && list[at].ranks_first(&item)
        invariant
            at <= list.len(),
            before == views(list@),
            forall|k: int| 0 <= k < at ==> T::ranks(#[trigger] before[k], item@),
        decreases list.len() - at,
    {
        proof {
            assert(before[at as int] == list@[at as int]@);
        }
        at += 1;
    }
    proof {
        if at < list.len() {
            assert(before[at as int] == list@[at as int]@);
            T::ranks_total(before[at as int], item@);
        }
    }
    if at > 0 && item.ranks_first(&list[at - 1]) {
        proof {
            assert(before[at - 1] == list@[at - 1]@);
            T::ranks_antisymmetric(before[at - 1], item@);
            assert(before.contains(item@));
            assert(before.to_set().insert(item@) =~= before.to_set());
        }
        return;
    }
    proof {
        let after = before.insert(at as int, item@);
        if at > 0 {
            assert(before[at - 1] == list@[at - 1]@);
        }
        assert forall|i: int, j: int| 0 <= i < j < after.len() implies T::ranks(
            #[trigger] after[i],
            #[trigger] after[j],
        ) && after[i] != after[j] by {
            let a = if i < at {
                i
            } else {
                i - 1
            };
            let b = if j < at {
                j
            } else {
                j - 1
            };
            if i != at && j != at {
                assert(after[i] == before[a] && after[j] == before[b]);
            } else if j == at {
                assert(after[i] == before[i]);
                assert(T::ranks(before[i], item@));
                if before[i] == item@ {
                    if i < at - 1 {
                        assert(T::ranks(before[i], before[at - 1]));
                    } else {
                        T::ranks_total(item@, before[i]);
                    }
                    assert(false);
                }
            } else {
                assert(after[j] == before[b]);
                if b > at {
                    T::ranks_transitive(item@, before[at as int], before[b]);
                }
                if before[b] == item@ {
                    if b > at {
                        assert(T::ranks(before[at as int], before[b]));
                    } else {
                        T::ranks_total(item@, item@);
                    }
                    assert(T::ranks(before[at as int], item@));
                    assert(false);
                }
            }
        }
        lemma_insert_set(before, at as int, item@);
    }
    let ghost given = item@;
    list.insert(at, item);
    proof {
        assert(views(list@) =~= before.insert(at as int, given));
    }
}

/// The set of a list with one more item.
proof fn lemma_insert_set<A>(s: Seq<A>, at: int, x: A)
    requires
        0 <= at <= s.len(),
    ensures
        s.insert(at, x).to_set() == s.to_set().insert(x),
{
    let t = s.insert(at, x);
    assert forall|y: A| t.to_set().contains(y) <==> s.to_set().insert(x).contains(y) by {
        if t.to_set().contains(y) {
            let i = choose|i: int| 0 <= i < t.len() && t[i] == y;
            if i < at {
                assert(s[i] == y);
            } else if i > at {
                assert(s[i - 1] == y);
            }
        }
        if y == x {
            assert(t[at] == y);
        } else if s.to_set().contains(y) {
            let i = choose|i: int| 0 <= i < s.len() && s[i] == y;
            if i < at {
                assert(t[i] == y);
            } else {
                assert(t[i + 1] == y);
            }
        }
    }
    assert(t.to_set() =~= s.to_set().insert(x));
}

/// The values of a list, sorted, each once.
pub fn ranked_set<T: Ranked>(items: Vec<T>) -> (r: Vec<T>)
    ensures
        in_rank::<T>(views(r@)),
        views(r@).to_set() == views(items@).to_set(),
{
    let ghost all = views(items@);
    let mut rest = items;
    let mut out: Vec<T> = Vec::new();
    proof {
        assert(views(out@).to_set() =~= Set::empty());
        assert(all.skip(rest@.len() as int).to_set() =~= Set::empty());
    }
    while rest.len() > 0
        invariant
            in_rank::<T>(views(out@)),
            rest@.len() <= all.len(),
            views(rest@) == all.take(rest@.len() as int),
            views(out@).to_set() == all.skip(rest@.len() as int).to_set(),
        decreases rest.len(),
    {
        let ghost n = rest@.len() as int;
        let ghost last = rest@[n - 1];
        let ghost whole = rest@;
        match rest.pop() {
            Some(item) => {
                let ghost x = item@;
                proof {
                    assert(views(whole)[n - 1] == x);
                    assert(all[n - 1] == x);
                    assert(all.skip(n - 1) =~= all.skip(n).insert(0, x));
                    lemma_insert_set(all.skip(n), 0, x);
                    assert(views(rest@) =~= all.take(n - 1));
                }
                add_ranked(&mut out, item);
            },
            None => {},
        }
    }
    proof {
        assert(all.skip(0) =~= all);
    }
    out
}

/// A sorted list in which nothing occurs twice is known by what it holds.
pub proof fn law_ranked_set_is_unique<T: Ranked>(a: Seq<T::V>, b: Seq<T::V>)
    requires
        in_rank::<T>(a),
        in_rank::<T>(b),
        a.to_set() == b.to_set(),
    ensures
        a == b,
    decreases a.len(),
{
    if a.len() == 0 {
        if b.len() > 0 {
            assert(b.to_set().contains(b[0]));
            assert(a.to_set().contains(b[0]));
        }
        assert(a =~= b);
    } else {
        assert(a.to_set().contains(a.last()));
        assert(b.to_set().contains(a.last()));
        let j = choose|j: int| 0 <= j < b.len() && b[j] == a.last();
        assert(b.to_set().contains(b.last()));
        assert(a.to_set().contains(b.last()));
        let i = choose|i: int| 0 <= i < a.len() && a[i] == b.last();
        if j < b.len() - 1 {
            assert(T::ranks(b[j], b[b.len() - 1]) && b[j] != b[b.len() - 1]);
            if i < a.len() - 1 {
                assert(T::ranks(a[i], a[a.len() - 1]));
                T::ranks_antisymmetric(a[i], a[a.len() - 1]);
            }
            assert(false);
        }
        assert(a.last() == b.last());
        let x = a.last();
        assert(a.drop_last().to_set() =~= a.to_set().remove(x)) by {
            lemma_last_out(a);
        }
        assert(b.drop_last().to_set() =~= b.to_set().remove(x)) by {
            lemma_last_out(b);
        }
        assert(in_rank::<T>(a.drop_last()));
        assert(in_rank::<T>(b.drop_last()));
        law_ranked_set_is_unique::<T>(a.drop_last(), b.drop_last());
        assert(a =~= a.drop_last().push(x));
        assert(b =~= b.drop_last().push(x));
    }
}

/// The set of a list without its last item, where that occurs once.
proof fn lemma_last_out<A>(s: Seq<A>)
    requires
        s.len() > 0,
        forall|i: int, j: int| 0 <= i < j < s.len() ==> #[trigger] s[i] != #[trigger] s[j],
    ensures
        s.drop_last().to_set() == s.to_set().remove(s.last()),
{
    let t = s.drop_last();
    let x = s.last();
    assert forall|y: A| t.to_set().contains(y) <==> s.to_set().remove(x).contains(y) by {
        if t.to_set().contains(y) {
            let i = choose|i: int| 0 <= i < t.len() && t[i] == y;
            assert(s[i] == y);
            assert(s[i] != s[s.len() - 1]);
        }
        if s.to_set().remove(x).contains(y) {
            let i = choose|i: int| 0 <= i < s.len() && s[i] == y;
            assert(t[i] == y);
        }
    }
    assert(t.to_set() =~= s.to_set().remove(x));
}

} // verus!
