//! When a flush and a merge go through, and what each changes.

use crate::compact_laws;
use crate::compaction;
use crate::compaction::CompactionView;
use crate::disk;
use crate::disk::EffectView;
use crate::error::StoreError;
use crate::flush_laws;
use crate::manifest;
use crate::manifest::LineView;
use crate::merge;
use crate::sorted;
use crate::sorted::Pair;
use crate::soundness;
use crate::storage;
use crate::storage::StoreView;
use crate::table;
use crate::text;
use vstd::prelude::*;

verus! {

/// A flush goes through if and only if the manifest can be read and lists a level, and there is a
/// number for the table. What is wrong with the manifest is what is given back.
pub proof fn law_flush_goes(store: StoreView, content: Seq<char>, levels: Seq<Seq<LineView>>)
    ensures
        storage::flush_check(store, content) == Ok::<Seq<Seq<LineView>>, StoreError>(levels)
            <==> manifest::manifest_levels(content) == Ok::<Seq<Seq<LineView>>, StoreError>(levels)
            && levels.len() > 0 && store.next_ids.len() > 0 && store.next_ids[0] < usize::MAX,
        store.next_ids.len() > 0 ==> (manifest::manifest_levels(content) matches Err(e)
            ==> storage::flush_check(store, content) == Err::<Seq<Seq<LineView>>, StoreError>(e)),
        store.next_ids.len() == 0 ==> storage::flush_check(store, content) == Err::<
            Seq<Seq<LineView>>,
            StoreError,
        >(StoreError::NoLevel),
        store.next_ids.len() > 0 && store.next_ids[0] == usize::MAX && levels.len() > 0
            && manifest::manifest_levels(content) == Ok::<Seq<Seq<LineView>>, StoreError>(levels)
            ==> storage::flush_check(store, content) == Err::<Seq<Seq<LineView>>, StoreError>(
            StoreError::OutOfNumbers,
        ),
        store.next_ids.len() > 0 && levels.len() == 0 && manifest::manifest_levels(content) == Ok::<
            Seq<Seq<LineView>>,
            StoreError,
        >(levels) ==> storage::flush_check(store, content) == Err::<
            Seq<Seq<LineView>>,
            StoreError,
        >(StoreError::NoLevel),
{
}

/// A flush adds one table to the end of level 0, by its number, and changes nothing else in the
/// manifest.
pub proof fn law_flush_lists(levels: Seq<Seq<LineView>>, id: nat)
    requires
        levels.len() > 0,
    ensures
        ({
            let after = storage::flushed_levels(levels, id);
            &&& after.len() == levels.len()
            &&& after[0].len() == levels[0].len() + 1
            &&& after[0].drop_last() == levels[0]
            &&& after[0].last().sst_name == seq!['s', 's', 't', '-'] + text::decimal(id) + seq![
                '.', 'j', 's', 'o', 'n',
            ]
            &&& after[0].last().start_key == seq!['N', 'A']
            &&& after[0].last().end_key == seq!['N', 'A']
            &&& forall|i: int| 0 < i < levels.len() ==> #[trigger] after[i] == levels[i]
        }),
{
    reveal_strlit("sst-");
    reveal_strlit(".json");
    reveal_strlit("NA");
    assert("sst-"@ =~= seq!['s', 's', 't', '-']);
    assert(".json"@ =~= seq!['.', 'j', 's', 'o', 'n']);
    assert("NA"@ =~= seq!['N', 'A']);
    let after = storage::flushed_levels(levels, id);
    assert(after[0].drop_last() =~= levels[0]);
}

/// After a flush level 0 goes on with the number after that of the new table, the table in memory
/// is as it was, and so are the numbers of the other levels.
pub proof fn law_flush_number(store: StoreView, levels: Seq<Seq<LineView>>)
    requires
        levels.len() > 0,
        store.next_ids.len() > 0,
        store.next_ids[0] < usize::MAX,
    ensures
        ({
            let after = flush_laws::flushed(store);
            let listed = storage::flushed_levels(levels, store.next_ids[0] as nat);
            &&& soundness::goes_on_after(listed[0], after.next_ids[0] as nat)
            &&& after.next_ids.len() == store.next_ids.len()
            &&& forall|i: int|
                0 < i < store.next_ids.len() ==> #[trigger] after.next_ids[i] == store.next_ids[i]
            &&& after.memtable == store.memtable
            &&& after.data_dir == store.data_dir
        }),
{
}

/// A level is due if and only if it is there and has five tables or more.
pub proof fn law_due(c: CompactionView)
    ensures
        c.due() <==> c.level < c.levels.len() && c.levels[c.level as int].len() >= 5,
{
}

/// The tables of the level are the inputs of a merge, all of them, the newest first.
pub proof fn law_inputs(c: CompactionView, dir: Seq<char>, j: int)
    requires
        c.level < c.levels.len(),
        0 <= j < c.levels[c.level as int].len(),
    ensures
        c.inputs(dir).len() == c.levels[c.level as int].len(),
        c.inputs(dir)[c.inputs(dir).len() - 1 - j] == disk::table_path(
            dir,
            c.level,
            c.levels[c.level as int][j].sst_name,
        ),
{
}

/// The texts of tables can be read if and only if each of them can, and then give what each of them
/// holds, in order.
pub proof fn law_texts(contents: Seq<Seq<char>>, tables: Seq<Seq<Pair>>)
    ensures
        compaction::texts_pairs(contents) == Ok::<Seq<Seq<Pair>>, StoreError>(tables)
            <==> tables.len() == contents.len() && forall|i: int|
            0 <= i < contents.len() ==> table::table_pairs(#[trigger] contents[i]) == Ok::<
                Seq<Pair>,
                StoreError,
            >(tables[i]),
    decreases contents.len(),
{
    if contents.len() == 0 {
        if tables.len() == 0 {
            assert(tables =~= Seq::empty());
        }
    } else {
        let front = contents.drop_last();
        let n = contents.len() - 1;
        if tables.len() > 0 {
            law_texts(front, tables.drop_last());
        }
        if compaction::texts_pairs(contents) == Ok::<Seq<Seq<Pair>>, StoreError>(tables) {
            let head = compaction::texts_pairs(front)->Ok_0;
            assert(tables =~= head.push(table::table_pairs(contents.last())->Ok_0));
            assert(tables.drop_last() =~= head);
            assert forall|i: int| 0 <= i < contents.len() implies table::table_pairs(
                #[trigger] contents[i],
            ) == Ok::<Seq<Pair>, StoreError>(tables[i]) by {
                if i < n {
                    assert(front[i] == contents[i]);
                }
            }
        }
        if tables.len() == contents.len() && (forall|i: int|
            0 <= i < contents.len() ==> table::table_pairs(#[trigger] contents[i]) == Ok::<
                Seq<Pair>,
                StoreError,
            >(tables[i])) {
            assert forall|i: int| 0 <= i < front.len() implies table::table_pairs(
                #[trigger] front[i],
            ) == Ok::<Seq<Pair>, StoreError>(tables.drop_last()[i]) by {
                assert(front[i] == contents[i]);
            }
            assert(table::table_pairs(contents[n]) == Ok::<Seq<Pair>, StoreError>(tables[n]));
            assert(tables.drop_last().push(tables[n]) =~= tables);
        }
    }
}

/// What is wrong with the texts of tables is what is wrong with the first that cannot be read.
pub proof fn law_texts_wrong(contents: Seq<Seq<char>>, n: int, e: StoreError)
    requires
        0 <= n < contents.len(),
        forall|i: int| 0 <= i < n ==> table::table_pairs(#[trigger] contents[i]) is Ok,
        table::table_pairs(contents[n]) == Err::<Seq<Pair>, StoreError>(e),
    ensures
        compaction::texts_pairs(contents) == Err::<Seq<Seq<Pair>>, StoreError>(e),
    decreases contents.len(),
{
    let front = contents.drop_last();
    if n < front.len() {
        assert(front[n] == contents[n]);
        assert forall|i: int| 0 <= i < n implies table::table_pairs(#[trigger] front[i]) is Ok by {
            assert(front[i] == contents[i]);
        }
        law_texts_wrong(front, n, e);
    } else {
        let tables = Seq::new(front.len(), |i: int| table::table_pairs(front[i])->Ok_0);
        assert forall|i: int| 0 <= i < front.len() implies table::table_pairs(#[trigger] front[i])
            == Ok::<Seq<Pair>, StoreError>(tables[i]) by {
            assert(front[i] == contents[i]);
        }
        law_texts(front, tables);
    }
}

/// Tables are merged by always taking the first pair of the table whose first key comes first, and
/// of the newest of these tables, if there are several. Where all tables are empty, nothing is left
/// to take.
pub proof fn law_merge_step(tables: Seq<Seq<Pair>>, i: int)
    ensures
        (forall|j: int| 0 <= j < tables.len() ==> (#[trigger] tables[j]).len() == 0)
            ==> merge::merged(tables) == Seq::<Pair>::empty(),
        0 <= i < tables.len() && tables[i].len() > 0 && (forall|j: int|
            0 <= j < tables.len() && (#[trigger] tables[j]).len() > 0 && j != i ==> text::precedes(
                tables[i][0].0,
                tables[j][0].0,
            ) || (i < j && tables[i][0].0 == tables[j][0].0)) ==> merge::merged(tables) == seq![
            tables[i][0],
        ] + merge::merged(tables.update(i, tables[i].drop_first())),
{
    let n = tables.len() as int;
    merge::lemma_least(tables, n);
    let r = merge::least(tables, n);
    if r >= 0 {
        assert(tables[r].len() > 0);
    }
    if 0 <= i < n && tables[i].len() > 0 && (forall|j: int|
        0 <= j < tables.len() && (#[trigger] tables[j]).len() > 0 && j != i ==> text::precedes(
            tables[i][0].0,
            tables[j][0].0,
        ) || (i < j && tables[i][0].0 == tables[j][0].0)) {
        assert(r >= 0);
        if r != i {
            assert(!text::precedes(tables[i][0].0, tables[r][0].0));
            assert(i < r && tables[i][0].0 == tables[r][0].0);
        }
    }
}

/// Of several tables the newest that has a key counts for it.
pub proof fn law_newest(tables: Seq<Seq<Pair>>, key: Seq<char>, n: int)
    requires
        0 <= n <= tables.len(),
        forall|j: int| 0 <= j < n ==> !sorted::has_key(#[trigger] tables[j], key),
    ensures
        n == tables.len() ==> merge::newest(tables, key) is None,
        n < tables.len() && sorted::has_key(tables[n], key) ==> merge::newest(tables, key)
            == sorted::first_wins(tables[n]).get(key),
    decreases n,
{
    if n == 0 {
        if tables.len() > 0 {
            sorted::lemma_first_wins_dom(tables[0], key);
        }
    } else {
        let rest = tables.drop_first();
        assert(!sorted::has_key(tables[0], key));
        sorted::lemma_first_wins_dom(tables[0], key);
        assert forall|j: int| 0 <= j < n - 1 implies !sorted::has_key(#[trigger] rest[j], key) by {
            assert(rest[j] == tables[j + 1]);
        }
        law_newest(rest, key, n - 1);
    }
}

/// A merge of sorted tables keeps a key if and only if the newest table that has it does not say
/// that it was deleted, and keeps it with what that table has for it. No key is kept twice.
pub proof fn law_merge_keeps(tables: Seq<Seq<Pair>>, key: Seq<char>)
    requires
        forall|j: int| 0 <= j < tables.len() ==> sorted::is_sorted(#[trigger] tables[j]),
    ensures
        ({
            let out = merge::merge_output(tables);
            &&& sorted::is_sorted(out)
            &&& match merge::newest(tables, key) {
                Some(info) => if info.deleted {
                    !sorted::has_key(out, key)
                } else {
                    sorted::first_wins(out).get(key) == Some(info)
                },
                None => !sorted::has_key(out, key),
            }
        }),
{
    let all = sorted::first_wins(merge::merged(tables));
    let m = sorted::live(all);
    sorted::lemma_first_wins_finite(merge::merged(tables));
    assert(m.dom().subset_of(all.dom()));
    vstd::set_lib::lemma_len_subset(m.dom(), all.dom());
    sorted::law_listing(m);
    merge::law_merge_newest_wins(tables, key);
    sorted::lemma_first_wins_dom(merge::merge_output(tables), key);
}

/// A merge goes through if the texts can be read, the store has as many numbers as there are levels,
/// and there are numbers for the merged tables, of which each holds at most 2000 pairs. It then
/// leaves what merging the tables gives. Where the store lacks numbers, there is no level for what
/// was merged; where it has too many, none at all.
pub proof fn law_compact_goes(
    c: CompactionView,
    next_ids: Seq<usize>,
    contents: Seq<Seq<char>>,
    tables: Seq<Seq<Pair>>,
)
    requires
        c.level < c.levels.len(),
        compaction::texts_pairs(contents) == Ok::<Seq<Seq<Pair>>, StoreError>(tables),
    ensures
        ({
            let s = merge::merge_output(tables);
            let lacks = next_ids.len() <= c.level && s.len() > 0;
            let exceeds = next_ids.len() > c.level + 1 == c.levels.len();
            let n = if c.level + 1 < next_ids.len() {
                next_ids[c.level as int + 1] as int
            } else {
                0
            };
            &&& lacks || exceeds <==> compaction::compact_check(c, next_ids, contents) == Err::<
                Seq<Pair>,
                StoreError,
            >(StoreError::NoLevel)
            &&& !lacks && !exceeds && s.len() <= (usize::MAX - n) * 2000 ==> compaction::compact_check(
                c,
                next_ids,
                contents,
            ) == Ok::<Seq<Pair>, StoreError>(s)
            &&& !lacks && !exceeds && s.len() > (usize::MAX - n) * 2000 ==> compaction::compact_check(
                c,
                next_ids,
                contents,
            ) == Err::<Seq<Pair>, StoreError>(StoreError::OutOfNumbers)
        }),
{
    let s = merge::merge_output(tables);
    let count = compaction::chunks(s, 2000).len() as int;
    let n = if c.level + 1 < next_ids.len() {
        next_ids[c.level as int + 1] as int
    } else {
        0
    };
    compact_laws::law_chunk_count(s, 2000);
    let room = usize::MAX - n;
    if s.len() <= room * 2000 && s.len() > 0 {
        assert(count <= room) by (nonlinear_arith)
            requires
                (count - 1) * 2000 < s.len(),
                s.len() <= room * 2000,
        ;
    }
    if s.len() > room * 2000 {
        assert(count > room) by (nonlinear_arith)
            requires
                s.len() <= count * 2000,
                s.len() > room * 2000,
        ;
    }
}

/// What is wrong with the texts of the tables is what a merge gives back.
pub proof fn law_compact_wrong(c: CompactionView, next_ids: Seq<usize>, contents: Seq<Seq<char>>)
    ensures
        compaction::texts_pairs(contents) matches Err(e) ==> compaction::compact_check(
            c,
            next_ids,
            contents,
        ) == Err::<Seq<Pair>, StoreError>(e),
{
}

/// The pairs of the `j`th merged table, counted from 0, are those that follow the first `j` times as
/// many as a table can hold.
pub proof fn law_chunk_is(s: Seq<Pair>, size: nat, j: int)
    requires
        size > 0,
        0 <= j < compaction::chunks(s, size).len(),
    ensures
        0 <= j * size < s.len(),
        compaction::chunks(s, size)[j] == s.subrange(
            j * size,
            if (j + 1) * size < s.len() {
                (j + 1) * size
            } else {
                s.len() as int
            },
        ),
    decreases s.len(),
{
    let n = size as int;
    let cs = compaction::chunks(s, size);
    if j == 0 {
        assert(0 * size == 0 && 1 * size == n) by (nonlinear_arith)
            requires
                n == size,
        ;
        if s.len() <= size {
            assert(cs[0] =~= s.subrange(0, s.len() as int));
        } else {
            assert(cs[0] =~= s.subrange(0, n));
        }
    } else {
        let rest = s.skip(n);
        assert(s.len() > size);
        assert(cs[j] == compaction::chunks(rest, size)[j - 1]);
        law_chunk_is(rest, size, j - 1);
        assert((j - 1) * size + n == j * size && j * size + n == (j + 1) * size)
            by (nonlinear_arith)
            requires
                n == size,
        ;
        let end = if (j + 1) * size < s.len() {
            (j + 1) * size
        } else {
            s.len() as int
        };
        assert(rest.subrange((j - 1) * size, end - n) =~= s.subrange(j * size, end));
    }
}

/// What a merge leaves listed: its level is empty, and the next one has one table more for each
/// piece of what was merged, behind those that it had, with the piece's first and last key and the
/// numbers from the next on. The other levels are as they were.
pub proof fn law_compact_lists(c: CompactionView, next_ids: Seq<usize>, s: Seq<Pair>, j: int)
    requires
        c.level < c.levels.len(),
        next_ids.len() == c.levels.len(),
        0 <= j < compaction::chunks(s, 2000).len(),
    ensures
        ({
            let after = compaction::compacted_levels(c, next_ids, s);
            let there = compact_laws::next_tables(c);
            let next = c.level as int + 1;
            let first = if next < next_ids.len() {
                next_ids[next] as nat
            } else {
                0
            };
            let last = if (j + 1) * 2000 < s.len() {
                (j + 1) * 2000 - 1
            } else {
                s.len() - 1
            };
            let l = after[next][there.len() + j];
            &&& l.start_key == s[j * 2000].0
            &&& l.end_key == s[last].0
            &&& l.sst_name == manifest::table_name((first + j) as nat)
        }),
{
    law_chunk_is(s, 2000, j);
    let cs = compaction::chunks(s, 2000);
    let after = compaction::compacted_levels(c, next_ids, s);
    let there = compact_laws::next_tables(c);
    let first = compaction::next_id(c, next_ids);
    assert(after[c.level as int + 1] =~= there + compaction::chunk_lines(cs, first));
}

/// A merge changes the tables of its level, of which none is left, and adds tables to the end of
/// the next level, which is opened if it has no number yet. The number of the next table rises by as
/// many as were added, from 0 on a new level; all other levels and numbers are as they were.
pub proof fn law_compact_changes(c: CompactionView, next_ids: Seq<usize>, s: Seq<Pair>)
    requires
        c.level < c.levels.len(),
        next_ids.len() > c.level,
        next_ids.len() > c.level + 1 ==> c.levels.len() > c.level + 1,
        compaction::next_id(c, next_ids) + compaction::chunks(s, 2000).len() <= usize::MAX,
    ensures
        ({
            let after = compaction::compacted_levels(c, next_ids, s);
            let ids = compaction::compacted_ids(c, next_ids, s);
            let there = compact_laws::next_tables(c);
            let next = c.level as int + 1;
            let count = after[next].len() - there.len();
            let first = if next < next_ids.len() {
                next_ids[next] as int
            } else {
                0
            };
            let opened: int = if next < next_ids.len() {
                0
            } else {
                1
            };
            &&& ids.len() == next_ids.len() + opened
            &&& after.len() == c.levels.len() + opened
            &&& after[c.level as int] == Seq::<LineView>::empty()
            &&& count == compaction::chunks(s, 2000).len()
            &&& after[next].take(there.len() as int) == there
            &&& ids[next] == first + count
            &&& forall|i: int|
                0 <= i < c.levels.len() && i != c.level && i != next ==> #[trigger] after[i]
                    == c.levels[i]
            &&& forall|i: int|
                0 <= i < next_ids.len() && i != next ==> #[trigger] ids[i] == next_ids[i]
        }),
{
    let cs = compaction::chunks(s, 2000);
    let after = compaction::compacted_levels(c, next_ids, s);
    let there = compact_laws::next_tables(c);
    let first = compaction::next_id(c, next_ids);
    let next = c.level as int + 1;
    assert(after[next] =~= there + compaction::chunk_lines(cs, first));
    assert(after[next].take(there.len() as int) =~= there);
}

/// What is logged is one line, added to the end of the log.
pub proof fn law_log_adds(dir: Seq<char>, line: Seq<char>)
    ensures
        storage::log_effects(dir, line) == seq![
            EffectView::Append { path: disk::wal_path(dir), content: line + seq!['\n'] },
        ],
{
    assert(line.push('\n') =~= line + seq!['\n']);
}

} // verus!
