//! The order of strings, and sorting by it.

use vstd::prelude::*;

use crate::text;
use crate::text::chars_of;

verus! {

/// Whether `a` comes before `b` or is the same: the first difference decides,
/// and a prefix comes first.
pub open spec fn text_le(a: Seq<char>, b: Seq<char>) -> bool
    decreases a.len(),
{
    if a.len() == 0 {
        true
    } else if b.len() == 0 {
        false
    } else if a[0] != b[0] {
        a[0] < b[0]
    } else {
        text_le(a.skip(1), b.skip(1))
    }
}

/// Whether `a` comes before `b` or is the same.
pub fn less_or_same(a: &str, b: &str) -> (r: bool)
    ensures
        r == text_le(a@, b@),
{
    let v = chars_of(a);
    let w = chars_of(b);
    let mut i: usize = 0;
    proof {
        assert(v@.skip(0) == v@);
        assert(w@.skip(0) == w@);
    }
    while i < v.len() && i < w.len() && v[i] == w[i]
        invariant
            i <= v.len(),
            i <= w.len(),
            v@ == a@,
            w@ == b@,
            text_le(v@.skip(i as int), w@.skip(i as int)) == text_le(a@, b@),
        decreases v.len() - i,
    {
        proof {
            assert(v@.skip(i as int).skip(1) == v@.skip(i + 1));
            assert(w@.skip(i as int).skip(1) == w@.skip(i + 1));
        }
        i += 1;
    }
    if i == v.len() {
        true
    } else if i == w.len() {
        false
    } else {
        v[i] < w[i]
    }
}

/// The order of strings is total.
pub proof fn lemma_text_le_total(a: Seq<char>, b: Seq<char>)
    ensures
        text_le(a, b) || text_le(b, a),
    decreases a.len(),
{
    if a.len() > 0 && b.len() > 0 && a[0] == b[0] {
        lemma_text_le_total(a.skip(1), b.skip(1));
    }
}

/// The order of strings is transitive.
pub proof fn lemma_text_le_transitive(a: Seq<char>, b: Seq<char>, c: Seq<char>)
    requires
        text_le(a, b),
        text_le(b, c),
    ensures
        text_le(a, c),
    decreases a.len(),
{
    if a.len() > 0 && b.len() > 0 && c.len() > 0 && a[0] == b[0] && b[0] == c[0] {
        lemma_text_le_transitive(a.skip(1), b.skip(1), c.skip(1));
    }
}

/// Two strings that come before each other are the same.
pub proof fn lemma_text_le_antisymmetric(a: Seq<char>, b: Seq<char>)
    requires
        text_le(a, b),
        text_le(b, a),
    ensures
        a == b,
    decreases a.len(),
{
    if a.len() > 0 && b.len() > 0 {
        lemma_text_le_antisymmetric(a.skip(1), b.skip(1));
        assert(a =~= seq![a[0]] + a.skip(1));
        assert(b =~= seq![b[0]] + b.skip(1));
    } else {
        assert(a =~= b);
    }
}

/// Where an item with the given key goes among items with sorted keys: behind
/// all that do not come after it.
pub open spec fn place_among(keys: Seq<Seq<char>>, key: Seq<char>) -> int
    decreases keys.len(),
{
    if keys.len() == 0 || text_le(keys.last(), key) {
        keys.len() as int
    } else {
        place_among(keys.drop_last(), key)
    }
}

/// The place lies within the list or at its end.
pub proof fn lemma_place_among(keys: Seq<Seq<char>>, key: Seq<char>)
    ensures
        0 <= place_among(keys, key) <= keys.len(),
        forall|i: int|
            place_among(keys, key) <= i < keys.len() ==> !text_le(#[trigger] keys[i], key),
        place_among(keys, key) > 0 ==> text_le(keys[place_among(keys, key) - 1], key),
    decreases keys.len(),
{
    if keys.len() > 0 && !text_le(keys.last(), key) {
        lemma_place_among(keys.drop_last(), key);
        assert forall|i: int| place_among(keys, key) <= i < keys.len() implies !text_le(
            #[trigger] keys[i],
            key,
        ) by {
            if i < keys.len() - 1 {
                assert(keys.drop_last()[i] == keys[i]);
            }
        }
    }
}

/// The strings of a list in order; equal ones keep their order.
pub open spec fn sorted_texts(s: Seq<Seq<char>>) -> Seq<Seq<char>>
    decreases s.len(),
{
    if s.len() == 0 {
        seq![]
    } else {
        let before = sorted_texts(s.drop_last());
        before.insert(place_among(before, s.last()), s.last())
    }
}

/// Whether the strings of a list are in order.
pub open spec fn is_sorted(keys: Seq<Seq<char>>) -> bool {
    forall|i: int, j: int| 0 <= i <= j < keys.len() ==> text_le(#[trigger] keys[i], #[trigger] keys[j])
}

/// A string comes before itself.
pub proof fn lemma_text_le_reflexive(a: Seq<char>)
    ensures
        text_le(a, a),
{
    lemma_text_le_total(a, a);
}

/// Putting an item in its place keeps a list in order.
pub proof fn lemma_insert_keeps_order(keys: Seq<Seq<char>>, key: Seq<char>)
    requires
        is_sorted(keys),
    ensures
        is_sorted(keys.insert(place_among(keys, key), key)),
{
    let at = place_among(keys, key);
    let all = keys.insert(at, key);
    lemma_place_among(keys, key);
    assert forall|i: int, j: int| 0 <= i <= j < all.len() implies text_le(
        #[trigger] all[i],
        #[trigger] all[j],
    ) by {
        if i == j {
            lemma_text_le_reflexive(all[i]);
        } else if j == at {
            assert(all[i] == keys[i]);
            assert(text_le(keys[i], keys[at - 1]));
            lemma_text_le_transitive(keys[i], keys[at - 1], key);
        } else if i == at {
            assert(all[j] == keys[j - 1]);
            assert(!text_le(keys[j - 1], key));
            lemma_text_le_total(key, keys[j - 1]);
        } else {
            let a = if i < at {
                i
            } else {
                i - 1
            };
            let b = if j < at {
                j
            } else {
                j - 1
            };
            assert(all[i] == keys[a] && all[j] == keys[b]);
            assert(text_le(keys[a], keys[b]));
        }
    }
}

/// Sorting puts a list in order and keeps what is in it.
pub proof fn law_sorting_sorts(s: Seq<Seq<char>>)
    ensures
        is_sorted(sorted_texts(s)),
        sorted_texts(s).to_multiset() == s.to_multiset(),
    decreases s.len(),
{
    broadcast use vstd::seq_lib::group_to_multiset_ensures;

    if s.len() == 0 {
        assert(sorted_texts(s) =~= s);
    } else {
        let before = sorted_texts(s.drop_last());
        let x = s.last();
        law_sorting_sorts(s.drop_last());
        lemma_insert_keeps_order(before, x);
        lemma_place_among(before, x);
        assert(s =~= s.drop_last().push(x));
        assert(sorted_texts(s).to_multiset() =~= before.to_multiset().insert(x));
        assert(s.to_multiset() =~= s.drop_last().to_multiset().insert(x));
    }
}

/// Puts a string into a sorted list, in its place.
fn insert_text(list: &mut Vec<String>, item: String)
    ensures
        text::texts(final(list)@) == text::texts(old(list)@).insert(
            place_among(text::texts(old(list)@), item@),
            item@,
        ),
{
    let ghost keys = text::texts(list@);
    let mut at: usize = list.len();
    proof {
        assert(keys.take(at as int) == keys);
    }
    while at > 0 && !less_or_same(list[at - 1].as_str(), item.as_str())
        invariant
            at <= list.len(),
            keys == text::texts(list@),
            place_among(keys.take(at as int), item@) == place_among(keys, item@),
        decreases at,
    {
        proof {
            assert(keys.take(at as int).last() == list@[at - 1]@);
            assert(keys.take(at as int).drop_last() == keys.take(at - 1));
        }
        at -= 1;
    }
    proof {
        if at > 0 {
            assert(keys.take(at as int).last() == list@[at - 1]@);
        }
    }
    let ghost before = list@;
    let ghost view = item@;
    list.insert(at, item);
    proof {
        assert(text::texts(list@) =~= keys.insert(at as int, view));
    }
}

/// The strings of a list in order.
pub fn sort_texts(list: &Vec<String>) -> (r: Vec<String>)
    ensures
        text::texts(r@) == sorted_texts(text::texts(list@)),
{
    let ghost all = text::texts(list@);
    let mut out: Vec<String> = Vec::new();
    let mut i: usize = 0;
    proof {
        assert(all.take(0) =~= seq![]);
        assert(text::texts(out@) =~= seq![]);
    }
    while i < list.len()
        invariant
            i <= list.len(),
            all == text::texts(list@),
            text::texts(out@) == sorted_texts(all.take(i as int)),
        decreases list.len() - i,
    {
        proof {
            assert(all.take(i + 1).drop_last() == all.take(i as int));
            assert(all.take(i + 1).last() == list@[i as int]@);
        }
        insert_text(&mut out, list[i].clone());
        i += 1;
    }
    proof {
        assert(all.take(i as int) == all);
    }
    out
}

/// Texts are ordered by the first character in which they differ; the start of a text
/// comes before the text.
pub proof fn law_first_difference_decides(
    start: Seq<char>,
    c: char,
    x: Seq<char>,
    d: char,
    y: Seq<char>,
)
    ensures
        c != d ==> (text_le(start + seq![c] + x, start + seq![d] + y) <==> c < d),
        text_le(start, start + x),
        !text_le(start + seq![c] + x, start),
    decreases start.len(),
{
    let a = start + seq![c] + x;
    let b = start + seq![d] + y;
    if start.len() == 0 {
        assert(a[0] == c && b[0] == d);
    } else {
        let t = start.skip(1);
        law_first_difference_decides(t, c, x, d, y);
        assert(a.skip(1) =~= t + seq![c] + x);
        assert(b.skip(1) =~= t + seq![d] + y);
        assert((start + x).skip(1) =~= t + x);
        assert(a[0] == start[0] && b[0] == start[0] && (start + x)[0] == start[0]);
    }
}

} // verus!
