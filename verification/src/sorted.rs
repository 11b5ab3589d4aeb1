//! Sequences of keyed values, and the maps that they stand for.

use crate::text;
use vstd::prelude::*;

verus! {

/// What a key stands for: a value, or the mark that it was deleted.
pub struct InfoView {
    pub value: Seq<char>,
    pub deleted: bool,
}

/// A key, and what it stands for.
pub type Pair = (Seq<char>, InfoView);

/// Whether the keys ascend, which includes that none occurs twice.
pub open spec fn is_sorted(s: Seq<Pair>) -> bool {
    forall|i: int, j: int| 0 <= i < j < s.len() ==> text::precedes(#[trigger] s[i].0, #[trigger] s[j].0)
}

/// For each key what stands beside its first occurrence.
pub open spec fn first_wins(s: Seq<Pair>) -> Map<Seq<char>, InfoView>
    decreases s.len(),
{
    if s.len() == 0 {
        Map::empty()
    } else {
        first_wins(s.drop_first()).insert(s[0].0, s[0].1)
    }
}

/// The pairs of a map, in the order of their keys.
pub open spec fn listing(m: Map<Seq<char>, InfoView>) -> Seq<Pair> {
    choose|s: Seq<Pair>| is_sorted(s) && first_wins(s) == m
}

/// The pairs that were not deleted.
pub open spec fn live(m: Map<Seq<char>, InfoView>) -> Map<Seq<char>, InfoView> {
    m.restrict(Set::new(|k: Seq<char>| m.contains_key(k) && !m[k].deleted))
}

/// Whether a key occurs among the pairs.
pub open spec fn has_key(s: Seq<Pair>, k: Seq<char>) -> bool {
    exists|i: int| 0 <= i < s.len() && (#[trigger] s[i]).0 == k
}

/// The keys of the map are those of the sequence.
pub proof fn lemma_first_wins_dom(s: Seq<Pair>, k: Seq<char>)
    ensures
        first_wins(s).contains_key(k) <==> has_key(s, k),
    decreases s.len(),
{
    if s.len() > 0 {
        let t = s.drop_first();
        lemma_first_wins_dom(t, k);
        if s[0].0 != k {
            if has_key(s, k) {
                let i = choose|i: int| 0 <= i < s.len() && (#[trigger] s[i]).0 == k;
                assert(t[i - 1] == s[i]);
            }
            if has_key(t, k) {
                let i = choose|i: int| 0 <= i < t.len() && (#[trigger] t[i]).0 == k;
                assert(s[i + 1] == t[i]);
            }
        } else {
            assert(s[0].0 == k);
        }
    }
}

/// What stands beside the first occurrence of a key is what the map holds for it.
pub proof fn lemma_first_wins_at(s: Seq<Pair>, i: int)
    requires
        0 <= i < s.len(),
        forall|j: int| 0 <= j < i ==> (#[trigger] s[j]).0 != s[i].0,
    ensures
        first_wins(s).contains_key(s[i].0),
        first_wins(s)[s[i].0] == s[i].1,
    decreases i,
{
    if i > 0 {
        let t = s.drop_first();
        assert(s[0].0 != s[i].0);
        assert forall|j: int| 0 <= j < i - 1 implies (#[trigger] t[j]).0 != t[i - 1].0 by {
            assert(t[j] == s[j + 1]);
        }
        lemma_first_wins_at(t, i - 1);
    }
}

/// Where the keys ascend, the map holds every pair.
pub proof fn lemma_sorted_at(s: Seq<Pair>, i: int)
    requires
        is_sorted(s),
        0 <= i < s.len(),
    ensures
        first_wins(s).contains_key(s[i].0),
        first_wins(s)[s[i].0] == s[i].1,
{
    assert forall|j: int| 0 <= j < i implies (#[trigger] s[j]).0 != s[i].0 by {
        text::lemma_precedes_irreflexive(s[i].0);
    }
    lemma_first_wins_at(s, i);
}

/// The map is the one that holds just these pairs.
pub proof fn lemma_sorted_map(s: Seq<Pair>, m: Map<Seq<char>, InfoView>)
    requires
        is_sorted(s),
        forall|i: int|
            0 <= i < s.len() ==> m.contains_key((#[trigger] s[i]).0) && m[s[i].0] == s[i].1,
        forall|k: Seq<char>| #[trigger] m.contains_key(k) ==> has_key(s, k),
    ensures
        first_wins(s) == m,
{
    assert forall|k: Seq<char>| #[trigger] first_wins(s).contains_key(k) == m.contains_key(k) by {
        lemma_first_wins_dom(s, k);
    }
    assert forall|k: Seq<char>| #[trigger] m.contains_key(k) implies first_wins(s)[k] == m[k] by {
        let i = choose|i: int| 0 <= i < s.len() && (#[trigger] s[i]).0 == k;
        lemma_sorted_at(s, i);
    }
    assert(first_wins(s) =~= m);
}

/// There are as many keys as pairs.
pub proof fn lemma_sorted_len(s: Seq<Pair>)
    requires
        is_sorted(s),
    ensures
        first_wins(s).dom().finite(),
        first_wins(s).len() == s.len(),
    decreases s.len(),
{
    if s.len() > 0 {
        let t = s.drop_first();
        assert forall|i: int, j: int| 0 <= i < j < t.len() implies text::precedes(
            #[trigger] t[i].0,
            #[trigger] t[j].0,
        ) by {
            assert(t[i] == s[i + 1] && t[j] == s[j + 1]);
        }
        lemma_sorted_len(t);
        lemma_first_wins_dom(t, s[0].0);
        if has_key(t, s[0].0) {
            let i = choose|i: int| 0 <= i < t.len() && (#[trigger] t[i]).0 == s[0].0;
            assert(t[i] == s[i + 1]);
            text::lemma_precedes_irreflexive(s[0].0);
        }
        assert(first_wins(s).dom() =~= first_wins(t).dom().insert(s[0].0));
    } else {
        assert(first_wins(s).dom() =~= Set::empty());
    }
}

/// Two ascending sequences that stand for one map are equal.
pub proof fn lemma_sorted_unique(s: Seq<Pair>, t: Seq<Pair>)
    requires
        is_sorted(s),
        is_sorted(t),
        first_wins(s) == first_wins(t),
    ensures
        s == t,
    decreases s.len(),
{
    lemma_sorted_len(s);
    lemma_sorted_len(t);
    if s.len() > 0 {
        lemma_sorted_at(s, 0);
        lemma_sorted_at(t, 0);
        lemma_first_wins_dom(t, s[0].0);
        lemma_first_wins_dom(s, t[0].0);
        let j = choose|j: int| 0 <= j < t.len() && (#[trigger] t[j]).0 == s[0].0;
        let i = choose|i: int| 0 <= i < s.len() && (#[trigger] s[i]).0 == t[0].0;
        if i > 0 && j > 0 {
            text::lemma_precedes_transitive(s[0].0, t[0].0, s[0].0);
            text::lemma_precedes_irreflexive(s[0].0);
        }
        assert(s[0] == t[0]);
        lemma_sorted_rest(s);
        lemma_sorted_rest(t);
        lemma_sorted_unique(s.drop_first(), t.drop_first());
        assert(s =~= seq![s[0]] + s.drop_first());
        assert(t =~= seq![t[0]] + t.drop_first());
    } else {
        assert(s =~= t);
    }
}

/// Without the first pair the keys still ascend, and the map lacks just that key.
pub proof fn lemma_sorted_rest(s: Seq<Pair>)
    requires
        is_sorted(s),
        s.len() > 0,
    ensures
        is_sorted(s.drop_first()),
        !has_key(s.drop_first(), s[0].0),
        first_wins(s.drop_first()) == first_wins(s).remove(s[0].0),
{
    let t = s.drop_first();
    assert forall|i: int, j: int| 0 <= i < j < t.len() implies text::precedes(
        #[trigger] t[i].0,
        #[trigger] t[j].0,
    ) by {
        assert(t[i] == s[i + 1] && t[j] == s[j + 1]);
    }
    assert(!has_key(t, s[0].0)) by {
        if has_key(t, s[0].0) {
            let i = choose|i: int| 0 <= i < t.len() && (#[trigger] t[i]).0 == s[0].0;
            assert(t[i] == s[i + 1]);
            text::lemma_precedes_irreflexive(s[0].0);
        }
    }
    lemma_first_wins_dom(t, s[0].0);
    assert(first_wins(t) =~= first_wins(s).remove(s[0].0));
}

/// The listing of the map of an ascending sequence is that sequence.
pub proof fn lemma_listing(s: Seq<Pair>)
    requires
        is_sorted(s),
    ensures
        listing(first_wins(s)) == s,
{
    lemma_sorted_unique(listing(first_wins(s)), s);
}

/// Another info for a key that is there.
pub proof fn lemma_update(s: Seq<Pair>, i: int, key: Seq<char>, info: InfoView)
    requires
        is_sorted(s),
        0 <= i < s.len(),
        s[i].0 == key,
    ensures
        is_sorted(s.update(i, (key, info))),
        first_wins(s.update(i, (key, info))) == first_wins(s).insert(key, info),
{
    let t = s.update(i, (key, info));
    let m = first_wins(s).insert(key, info);
    assert forall|a: int| 0 <= a < t.len() implies t[a].0 == (#[trigger] s[a]).0 by {}
    assert(is_sorted(t)) by {
        assert forall|a: int, b: int| 0 <= a < b < t.len() implies text::precedes(
            #[trigger] t[a].0,
            #[trigger] t[b].0,
        ) by {
            assert(s[a].0 == t[a].0 && s[b].0 == t[b].0);
        }
    }
    assert forall|a: int| 0 <= a < t.len() implies m.contains_key((#[trigger] t[a]).0) && m[t[a].0]
        == t[a].1 by {
        lemma_sorted_at(s, a);
        if a != i {
            text::lemma_precedes_irreflexive(key);
            assert(s[a].0 == t[a].0 && s[i].0 == key);
        }
    }
    assert forall|k: Seq<char>| #[trigger] m.contains_key(k) implies has_key(t, k) by {
        if k == key {
            assert(t[i].0 == k);
        } else {
            lemma_first_wins_dom(s, k);
            let a = choose|a: int| 0 <= a < s.len() && (#[trigger] s[a]).0 == k;
            assert(t[a].0 == k);
        }
    }
    lemma_sorted_map(t, m);
}

/// A key that is not there, in its place.
pub proof fn lemma_insert(s: Seq<Pair>, i: int, key: Seq<char>, info: InfoView)
    requires
        is_sorted(s),
        0 <= i <= s.len(),
        forall|j: int| 0 <= j < i ==> text::precedes((#[trigger] s[j]).0, key),
        forall|j: int| i <= j < s.len() ==> text::precedes(key, (#[trigger] s[j]).0),
    ensures
        is_sorted(s.insert(i, (key, info))),
        first_wins(s.insert(i, (key, info))) == first_wins(s).insert(key, info),
{
    let t = s.insert(i, (key, info));
    let m = first_wins(s).insert(key, info);
    text::lemma_precedes_irreflexive(key);
    assert(is_sorted(t)) by {
        assert forall|a: int, b: int| 0 <= a < b < t.len() implies text::precedes(
            #[trigger] t[a].0,
            #[trigger] t[b].0,
        ) by {
            let c = if a < i { a } else { a - 1 };
            let d = if b < i { b } else { b - 1 };
            if a != i && b != i {
                assert(t[a] == s[c] && t[b] == s[d]);
            } else if a == i {
                assert(t[b] == s[d]);
            } else {
                assert(t[a] == s[c]);
            }
        }
    }
    assert forall|a: int| 0 <= a < t.len() implies m.contains_key((#[trigger] t[a]).0) && m[t[a].0]
        == t[a].1 by {
        if a != i {
            let c = if a < i { a } else { a - 1 };
            assert(t[a] == s[c]);
            lemma_sorted_at(s, c);
        }
    }
    assert forall|k: Seq<char>| #[trigger] m.contains_key(k) implies has_key(t, k) by {
        if k == key {
            assert(t[i].0 == k);
        } else {
            lemma_first_wins_dom(s, k);
            let c = choose|c: int| 0 <= c < s.len() && (#[trigger] s[c]).0 == k;
            let a = if c < i { c } else { c + 1 };
            assert(t[a] == s[c]);
        }
    }
    lemma_sorted_map(t, m);
}

/// There is a place for a key that is not there.
proof fn lemma_place(s: Seq<Pair>, key: Seq<char>) -> (i: int)
    requires
        is_sorted(s),
        !has_key(s, key),
    ensures
        0 <= i <= s.len(),
        forall|j: int| 0 <= j < i ==> text::precedes((#[trigger] s[j]).0, key),
        forall|j: int| i <= j < s.len() ==> text::precedes(key, (#[trigger] s[j]).0),
    decreases s.len(),
{
    if s.len() == 0 {
        0
    } else {
        assert(s[0].0 != key);
        text::lemma_precedes_total(s[0].0, key);
        if text::precedes(s[0].0, key) {
            let t = s.drop_first();
            lemma_sorted_rest(s);
            if has_key(t, key) {
                let j = choose|j: int| 0 <= j < t.len() && (#[trigger] t[j]).0 == key;
                assert(s[j + 1] == t[j]);
            }
            let i = lemma_place(t, key);
            assert forall|j: int| 0 <= j < i + 1 implies text::precedes((#[trigger] s[j]).0, key) by {
                if j > 0 {
                    assert(s[j] == t[j - 1]);
                }
            }
            assert forall|j: int| i + 1 <= j < s.len() implies text::precedes(
                key,
                (#[trigger] s[j]).0,
            ) by {
                assert(s[j] == t[j - 1]);
            }
            i + 1
        } else {
            assert forall|j: int| 0 <= j < s.len() implies text::precedes(
                key,
                (#[trigger] s[j]).0,
            ) by {
                if j > 0 {
                    text::lemma_precedes_transitive(key, s[0].0, s[j].0);
                }
            }
            0
        }
    }
}

/// Every finite map has a listing: its keys ascend, and it stands for the map.
pub proof fn law_listing(m: Map<Seq<char>, InfoView>)
    requires
        m.dom().finite(),
    ensures
        is_sorted(listing(m)),
        first_wins(listing(m)) == m,
    decreases m.dom().len(),
{
    if m.dom().len() == 0 {
        let s = Seq::<Pair>::empty();
        assert(first_wins(s) =~= m);
        assert(is_sorted(s));
    } else {
        let key = m.dom().choose();
        let rest = m.remove(key);
        assert(rest.dom() =~= m.dom().remove(key));
        law_listing(rest);
        let t = listing(rest);
        lemma_first_wins_dom(t, key);
        let i = lemma_place(t, key);
        lemma_insert(t, i, key, m[key]);
        assert(rest.insert(key, m[key]) =~= m);
        let s = t.insert(i, (key, m[key]));
        assert(is_sorted(s) && first_wins(s) == m);
    }
}

/// A sequence has finitely many keys.
pub proof fn lemma_first_wins_finite(s: Seq<Pair>)
    ensures
        first_wins(s).dom().finite(),
        live(first_wins(s)).dom().finite(),
    decreases s.len(),
{
    if s.len() > 0 {
        lemma_first_wins_finite(s.drop_first());
        assert(first_wins(s).dom() =~= first_wins(s.drop_first()).dom().insert(s[0].0));
    } else {
        assert(first_wins(s).dom() =~= Set::empty());
    }
    let all = first_wins(s).dom();
    assert(live(first_wins(s)).dom().subset_of(all));
    vstd::set_lib::lemma_len_subset(live(first_wins(s)).dom(), all);
}

} // verus!
