//! Merging the tables of a level into one.

use crate::sorted;
use crate::sorted::{InfoView, Pair};
use crate::storage::KVError;
use crate::table;
use crate::table::{Entry, Info, Memtable, MemtableIter};
use crate::text;
use crate::text::str_precedes;
use vstd::prelude::*;

verus! {

/// How many pairs the tables hold.
pub open spec fn total(tables: Seq<Seq<Pair>>) -> nat
    decreases tables.len(),
{
    if tables.len() == 0 {
        0
    } else {
        total(tables.drop_last()) + tables.last().len()
    }
}

/// Among the first `n` tables the one whose first key comes first, and the newest of those with
/// that first key: a table is the newer the smaller its index. -1 if all of them are empty.
pub open spec fn least(tables: Seq<Seq<Pair>>, n: int) -> int
    decreases n,
{
    if n <= 0 {
        -1
    } else {
        let best = least(tables, n - 1);
        let here = tables[n - 1];
        if here.len() > 0 && (best < 0 || text::precedes(here[0].0, tables[best][0].0)) {
            n - 1
        } else {
            best
        }
    }
}

/// The tables without the first pair of one of them.
pub open spec fn advance(tables: Seq<Seq<Pair>>, i: int) -> Seq<Seq<Pair>> {
    tables.update(i, tables[i].drop_first())
}

/// The pairs of all tables, in the order in which a merge takes them: always the one of least key
/// among the first pairs of the tables, and of those the one of the newest table.
pub open spec fn merged(tables: Seq<Seq<Pair>>) -> Seq<Pair>
    decreases total(tables),
    via merged_decreases
{
    let i = least(tables, tables.len() as int);
    if i < 0 {
        Seq::empty()
    } else {
        seq![tables[i][0]] + merged(advance(tables, i))
    }
}

#[via_fn]
proof fn merged_decreases(tables: Seq<Seq<Pair>>) {
    let i = least(tables, tables.len() as int);
    if i >= 0 {
        lemma_least(tables, tables.len() as int);
        lemma_total(tables, i);
    }
}

/// What the newest of the tables that have the key holds for it.
pub open spec fn newest(tables: Seq<Seq<Pair>>, key: Seq<char>) -> Option<InfoView>
    decreases tables.len(),
{
    if tables.len() == 0 {
        None
    } else if sorted::first_wins(tables[0]).contains_key(key) {
        Some(sorted::first_wins(tables[0])[key])
    } else {
        newest(tables.drop_first(), key)
    }
}

/// What a merge of the tables keeps: for each key the pair that it takes first, unless that is
/// the mark of a deletion, in the order of the keys.
pub open spec fn merge_output(tables: Seq<Seq<Pair>>) -> Seq<Pair> {
    sorted::listing(sorted::live(sorted::first_wins(merged(tables))))
}

/// What the tables hold.
pub open spec fn tables_view(tables: Seq<Vec<(String, Info)>>) -> Seq<Seq<Pair>> {
    tables.map_values(|t: Vec<(String, Info)>| table::pairs(t@))
}

pub proof fn lemma_least(tables: Seq<Seq<Pair>>, n: int)
    requires
        n <= tables.len(),
    ensures
        least(tables, n) < n || n < 0,
        least(tables, n) >= -1,
        least(tables, n) >= 0 ==> tables[least(tables, n)].len() > 0,
        least(tables, n) < 0 ==> forall|j: int| 0 <= j < n ==> (#[trigger] tables[j]).len() == 0,
        least(tables, n) >= 0 ==> forall|j: int|
            0 <= j < n && (#[trigger] tables[j]).len() > 0 ==> !text::precedes(
                tables[j][0].0,
                tables[least(tables, n)][0].0,
            ),
        least(tables, n) >= 0 ==> forall|j: int|
            0 <= j < least(tables, n) && (#[trigger] tables[j]).len() > 0 ==> tables[j][0].0
                != tables[least(tables, n)][0].0,
    decreases n,
{
    if n > 0 {
        lemma_least(tables, n - 1);
        let best = least(tables, n - 1);
        let r = least(tables, n);
        if r >= 0 {
            let key = tables[r][0].0;
            text::lemma_precedes_irreflexive(key);
            if best >= 0 {
                let other = tables[best][0].0;
                assert forall|j: int| 0 <= j < n && (#[trigger] tables[j]).len()
                    > 0 implies !text::precedes(tables[j][0].0, key) by {
                    if r == n - 1 && j < n - 1 && text::precedes(tables[j][0].0, key) {
                        text::lemma_precedes_transitive(tables[j][0].0, key, other);
                    }
                }
                assert forall|j: int| 0 <= j < r && (#[trigger] tables[j]).len()
                    > 0 implies tables[j][0].0 != key by {
                    if r == n - 1 && tables[j][0].0 == key {
                        assert(!text::precedes(tables[j][0].0, other));
                    }
                }
            }
        }
    }
}

proof fn lemma_total(tables: Seq<Seq<Pair>>, i: int)
    requires
        0 <= i < tables.len(),
        tables[i].len() > 0,
    ensures
        total(advance(tables, i)) < total(tables),
    decreases tables.len(),
{
    let after = advance(tables, i);
    if i == tables.len() - 1 {
        assert(after.drop_last() =~= tables.drop_last());
    } else {
        assert(after.drop_last() =~= advance(tables.drop_last(), i));
        lemma_total(tables.drop_last(), i);
    }
}

/// A pair behind the others matters only where its key is new.
proof fn lemma_first_wins_push(s: Seq<Pair>, p: Pair)
    ensures
        sorted::first_wins(s).contains_key(p.0) ==> sorted::first_wins(s.push(p))
            == sorted::first_wins(s),
        !sorted::first_wins(s).contains_key(p.0) ==> sorted::first_wins(s.push(p))
            == sorted::first_wins(s).insert(p.0, p.1),
    decreases s.len(),
{
    if s.len() == 0 {
        assert(s.push(p).drop_first() =~= s);
    } else {
        lemma_first_wins_push(s.drop_first(), p);
        assert(s.push(p).drop_first() =~= s.drop_first().push(p));
        assert(sorted::first_wins(s.push(p)) =~= if sorted::first_wins(s).contains_key(p.0) {
            sorted::first_wins(s)
        } else {
            sorted::first_wins(s).insert(p.0, p.1)
        });
    }
}

proof fn lemma_newest_none(tables: Seq<Seq<Pair>>, key: Seq<char>)
    requires
        forall|j: int| 0 <= j < tables.len() ==> !sorted::has_key(#[trigger] tables[j], key),
    ensures
        newest(tables, key) is None,
    decreases tables.len(),
{
    if tables.len() > 0 {
        sorted::lemma_first_wins_dom(tables[0], key);
        assert(!sorted::has_key(tables[0], key));
        let rest = tables.drop_first();
        assert forall|j: int| 0 <= j < rest.len() implies !sorted::has_key(
            #[trigger] rest[j],
            key,
        ) by {
            assert(rest[j] == tables[j + 1]);
        }
        lemma_newest_none(rest, key);
    }
}

proof fn lemma_newest_at(tables: Seq<Seq<Pair>>, key: Seq<char>, i: int)
    requires
        0 <= i < tables.len(),
        sorted::has_key(tables[i], key),
        forall|j: int| 0 <= j < i ==> !sorted::has_key(#[trigger] tables[j], key),
    ensures
        newest(tables, key) == Some(sorted::first_wins(tables[i])[key]),
    decreases tables.len(),
{
    sorted::lemma_first_wins_dom(tables[0], key);
    if i > 0 {
        assert(!sorted::has_key(tables[0], key));
        let rest = tables.drop_first();
        assert forall|j: int| 0 <= j < i - 1 implies !sorted::has_key(#[trigger] rest[j], key) by {
            assert(rest[j] == tables[j + 1]);
        }
        lemma_newest_at(rest, key, i - 1);
    }
}

/// Where the keys of every table ascend, a merge finds for each key what the newest table with
/// that key holds.
pub proof fn law_merge_newest_wins(tables: Seq<Seq<Pair>>, key: Seq<char>)
    requires
        forall|j: int| 0 <= j < tables.len() ==> sorted::is_sorted(#[trigger] tables[j]),
    ensures
        sorted::first_wins(merged(tables)).get(key) == newest(tables, key),
    decreases total(tables),
{
    let n = tables.len() as int;
    let i = least(tables, n);
    lemma_least(tables, n);
    if i < 0 {
        assert forall|j: int| 0 <= j < n implies !sorted::has_key(#[trigger] tables[j], key) by {}
        lemma_newest_none(tables, key);
    } else {
        let after = advance(tables, i);
        let p = tables[i][0];
        lemma_total(tables, i);
        sorted::lemma_sorted_rest(tables[i]);
        assert forall|j: int| 0 <= j < after.len() implies sorted::is_sorted(
            #[trigger] after[j],
        ) by {
            assert(sorted::is_sorted(tables[j]));
        }
        law_merge_newest_wins(after, key);
        assert(merged(tables).drop_first() =~= merged(after));
        assert(merged(tables)[0] == p);
        if key == p.0 {
            assert forall|j: int| 0 <= j < i implies !sorted::has_key(#[trigger] tables[j], key) by {
                if sorted::has_key(tables[j], key) {
                    let t = tables[j];
                    let a = choose|a: int| 0 <= a < t.len() && (#[trigger] t[a]).0 == key;
                    assert(sorted::is_sorted(t));
                    if a > 0 {
                        assert(text::precedes(t[0].0, t[a].0));
                    }
                }
            }
            assert(tables[i][0].0 == key);
            lemma_newest_at(tables, key, i);
            sorted::lemma_sorted_at(tables[i], 0);
        } else {
            lemma_newest_same(tables, i, key);
        }
    }
}

/// To take the first pair of a table leaves the other keys alone.
proof fn lemma_newest_same(tables: Seq<Seq<Pair>>, i: int, key: Seq<char>)
    requires
        0 <= i < tables.len(),
        tables[i].len() > 0,
        tables[i][0].0 != key,
    ensures
        newest(advance(tables, i), key) == newest(tables, key),
    decreases tables.len(),
{
    let after = advance(tables, i);
    if i > 0 {
        assert(after.drop_first() =~= advance(tables.drop_first(), i - 1));
        lemma_newest_same(tables.drop_first(), i - 1, key);
    } else {
        assert(after.drop_first() =~= tables.drop_first());
    }
}

/// What is left of the tables, from these positions on.
spec fn left(tables: Seq<Vec<(String, Info)>>, pos: Seq<usize>) -> Seq<Seq<Pair>> {
    Seq::new(tables.len(), |i: int| table::pairs(tables[i]@).skip(pos[i] as int))
}

/// The table from which the merge goes on.
fn find_least(tables: &Vec<Vec<(String, Info)>>, pos: &Vec<usize>) -> (r: Option<usize>)
    requires
        pos@.len() == tables@.len(),
        forall|i: int| 0 <= i < pos@.len() ==> (#[trigger] pos@[i]) <= tables@[i]@.len(),
    ensures
        match r {
            Some(i) => i == least(left(tables@, pos@), tables@.len() as int),
            None => least(left(tables@, pos@), tables@.len() as int) < 0,
        },
{
    let ghost rest = left(tables@, pos@);
    let mut best: Option<usize> = None;
    let mut i: usize = 0;
    while i < tables.len()
        invariant
            i <= tables@.len(),
            pos@.len() == tables@.len(),
            rest == left(tables@, pos@),
            forall|i: int| 0 <= i < pos@.len() ==> (#[trigger] pos@[i]) <= tables@[i]@.len(),
            match best {
                Some(b) => b == least(rest, i as int) && b < i && rest[b as int].len() > 0,
                None => least(rest, i as int) < 0,
            },
        decreases tables.len() - i,
    {
        assert(pos@[i as int] <= tables@[i as int]@.len());
        if pos[i] < tables[i].len() {
            let better: bool = match best {
                None => true,
                Some(b) => {
                    assert(pos@[b as int] <= tables@[b as int]@.len());
                    str_precedes(tables[i][pos[i]].0.as_str(), tables[b][pos[b]].0.as_str())
                },
            };
            if better {
                best = Some(i);
            }
        }
        i += 1;
    }
    best
}

/// Merges tables, the newest first.
pub fn merge(tables: &Vec<Vec<(String, Info)>>) -> (r: Vec<(String, Info)>)
    ensures
        table::pairs(r@) == merge_output(tables_view(tables@)),
        sorted::is_sorted(table::pairs(r@)),
        sorted::first_wins(table::pairs(r@)) == sorted::live(
            sorted::first_wins(merged(tables_view(tables@))),
        ),
{
    let ghost all = tables_view(tables@);
    let mut pos: Vec<usize> = Vec::new();
    while pos.len() < tables.len()
        invariant
            pos@.len() <= tables@.len(),
            forall|i: int| 0 <= i < pos@.len() ==> (#[trigger] pos@[i]) == 0,
        decreases tables.len() - pos.len(),
    {
        pos.push(0);
    }
    let mut seen = Memtable::new();
    let ghost mut taken: Seq<Pair> = Seq::empty();
    assert(left(tables@, pos@) =~= all) by {
        assert forall|i: int| 0 <= i < all.len() implies left(tables@, pos@)[i] == #[trigger] all[i] by {
            assert(pos@[i] == 0);
            assert(table::pairs(tables@[i]@).skip(0) =~= all[i]);
        }
    }
    assert(taken + merged(all) =~= merged(all));
    loop
        invariant
            pos@.len() == tables@.len(),
            all == tables_view(tables@),
            forall|i: int| 0 <= i < pos@.len() ==> (#[trigger] pos@[i]) <= tables@[i]@.len(),
            merged(all) == taken + merged(left(tables@, pos@)),
            seen@ == sorted::first_wins(taken),
        ensures
            seen@ == sorted::first_wins(merged(all)),
        decreases total(left(tables@, pos@)),
    {
        let ghost rest = left(tables@, pos@);
        let i: usize = match find_least(tables, &pos) {
            Some(i) => i,
            None => {
                assert(taken + Seq::<Pair>::empty() =~= taken);
                break;
            },
        };
        proof {
            lemma_least(rest, rest.len() as int);
            lemma_total(rest, i as int);
            assert(pos@[i as int] <= tables@[i as int]@.len());
        }
        let at: usize = pos[i];
        let item = &tables[i][at];
        let ghost p: Pair = (item.0@, item.1@);
        proof {
            assert(rest[i as int][0] == p);
            assert(taken + (seq![p] + merged(advance(rest, i as int))) =~= taken.push(p) + merged(
                advance(rest, i as int),
            ));
            lemma_first_wins_push(taken, p);
        }
        let known: bool = match seen.get(item.0.as_str()) {
            Err(KVError::NotFound) => false,
            _ => true,
        };
        if !known {
            seen.insert(Entry::new(item.0.clone(), item.1.clone()));
        }
        let ghost before = pos@;
        assert(at < tables@[i as int].len());
        pos[i] = at + 1;
        proof {
            taken = taken.push(p);
            assert(left(tables@, pos@) =~= advance(rest, i as int)) by {
                assert forall|j: int| 0 <= j < rest.len() implies left(tables@, pos@)[j]
                    == #[trigger] advance(rest, i as int)[j] by {
                    if j == i {
                        assert(table::pairs(tables@[j]@).skip(at + 1) =~= table::pairs(
                            tables@[j]@,
                        ).skip(at as int).drop_first());
                    } else {
                        assert(pos@[j] == before[j]);
                    }
                }
            }
        }
    }
    take_live(&seen)
}

/// The pairs of a table in memory that were not deleted, in the order of their keys.
fn take_live(seen: &Memtable) -> (r: Vec<(String, Info)>)
    ensures
        table::pairs(r@) == sorted::listing(sorted::live(seen@)),
        sorted::is_sorted(table::pairs(r@)),
        sorted::first_wins(table::pairs(r@)) == sorted::live(seen@),
{
    let mut iter = MemtableIter::new(seen);
    let ghost s = iter.remaining();
    let ghost mut n: int = 0;
    let mut r: Vec<(String, Info)> = Vec::new();
    assert(s.skip(0) =~= s);
    loop
        invariant
            sorted::is_sorted(s),
            sorted::first_wins(s) == seen@,
            0 <= n <= s.len(),
            iter.remaining() == s.skip(n),
            sorted::is_sorted(table::pairs(r@)),
            forall|a: int|
                0 <= a < r@.len() ==> !(#[trigger] table::pairs(r@)[a]).1.deleted
                    && exists|b: int| 0 <= b < n && s[b] == table::pairs(r@)[a],
            forall|b: int|
                0 <= b < n && !(#[trigger] s[b]).1.deleted ==> sorted::has_key(
                    table::pairs(r@),
                    s[b].0,
                ),
        ensures
            n == s.len(),
        decreases s.len() - n,
    {
        match iter.next() {
            None => {
                break;
            },
            Some(item) => {
                let ghost p: Pair = (item.0@, item.1@);
                let ghost before = table::pairs(r@);
                assert(s[n] == p);
                assert(s.skip(n).drop_first() =~= s.skip(n + 1));
                if !item.1.deleted {
                    r.push(item);
                    proof {
                        let after = table::pairs(r@);
                        assert(after =~= before.push(p));
                        assert forall|a: int, b: int| 0 <= a < b < after.len() implies text::precedes(
                            #[trigger] after[a].0,
                            #[trigger] after[b].0,
                        ) by {
                            assert(after[a] == before[a]);
                            if b < before.len() {
                                assert(after[b] == before[b]);
                            } else {
                                let c = choose|c: int| 0 <= c < n && s[c] == before[a];
                                assert(text::precedes(s[c].0, s[n].0));
                            }
                        }
                        assert forall|a: int| 0 <= a < after.len() implies !(
                        #[trigger] after[a]).1.deleted && exists|b: int|
                            0 <= b < n + 1 && s[b] == after[a] by {
                            if a < before.len() {
                                assert(after[a] == before[a]);
                                let c = choose|c: int| 0 <= c < n && s[c] == before[a];
                                assert(s[c] == after[a]);
                            } else {
                                assert(s[n] == after[a]);
                            }
                        }
                        assert forall|b: int| 0 <= b < n + 1 && !(
                        #[trigger] s[b]).1.deleted implies sorted::has_key(after, s[b].0) by {
                            if b < n {
                                let a = choose|a: int|
                                    0 <= a < before.len() && (#[trigger] before[a]).0 == s[b].0;
                                assert(after[a].0 == s[b].0);
                            } else {
                                assert(after[before.len() as int].0 == s[b].0);
                            }
                        }
                    }
                }
                proof {
                    n = n + 1;
                }
            },
        }
    }
    proof {
        let out = table::pairs(r@);
        let m = sorted::live(seen@);
        assert forall|a: int| 0 <= a < out.len() implies m.contains_key((#[trigger] out[a]).0)
            && m[out[a].0] == out[a].1 by {
            let b = choose|b: int| 0 <= b < n && s[b] == out[a];
            sorted::lemma_sorted_at(s, b);
        }
        assert forall|k: Seq<char>| #[trigger] m.contains_key(k) implies sorted::has_key(out, k) by {
            sorted::lemma_first_wins_dom(s, k);
            let b = choose|b: int| 0 <= b < s.len() && (#[trigger] s[b]).0 == k;
            sorted::lemma_sorted_at(s, b);
            assert(!s[b].1.deleted);
        }
        sorted::lemma_sorted_map(out, m);
        sorted::lemma_listing(out);
    }
    r
}

} // verus!
