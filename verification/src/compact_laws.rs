//! What merging the tables of a level keeps.

use crate::compaction;
use crate::compaction::CompactionView;
use crate::disk;
use crate::disk::{EffectView, Files};
use crate::error::StoreError;
use crate::manifest;
use crate::manifest::LineView;
use crate::merge;
use crate::search;
use crate::search::Answer;
use crate::sorted;
use crate::sorted::Pair;
use crate::soundness;
use crate::storage;
use crate::storage::{StoreView, LEVEL_LIMIT, TABLE_CAPACITY};
use crate::table;
use crate::text;
use vstd::prelude::*;

verus! {

/// What the tables of a level hold, newest first.
pub open spec fn level_tables(
    dir: Seq<char>,
    files: Files,
    level: nat,
    ls: Seq<LineView>,
) -> Seq<Seq<Pair>> {
    Seq::new(
        ls.len(),
        |j: int|
            soundness::pairs_in(files[disk::table_path(dir, level, ls[ls.len() - 1 - j].sst_name)]),
    )
}

/// What looking into the tables from a level on gives.
pub open spec fn levels_answer(
    dir: Seq<char>,
    files: Files,
    levels: Seq<Seq<LineView>>,
    level: nat,
    key: Seq<char>,
) -> Result<Answer, StoreError> {
    search::tables_answer(files, search::candidates(dir, levels, level, key), key)
}

proof fn lemma_newest_concat(a: Seq<Seq<Pair>>, b: Seq<Seq<Pair>>, key: Seq<char>)
    ensures
        merge::newest(a + b, key) == match merge::newest(a, key) {
            Some(info) => Some(info),
            None => merge::newest(b, key),
        },
    decreases a.len(),
{
    if a.len() == 0 {
        assert(a + b =~= b);
    } else {
        assert((a + b).drop_first() =~= a.drop_first() + b);
        lemma_newest_concat(a.drop_first(), b, key);
    }
}

proof fn lemma_newest_one(s: Seq<Pair>, key: Seq<char>)
    ensures
        merge::newest(seq![s], key) == sorted::first_wins(s).get(key),
{
    assert(seq![s].drop_first() =~= Seq::empty());
    assert(merge::newest(Seq::empty(), key) is None);
}

/// A table whose range has no room for a key does not have it.
proof fn lemma_out_of_range(
    dir: Seq<char>,
    files: Files,
    level: nat,
    l: LineView,
    key: Seq<char>,
)
    requires
        soundness::is_sound_table(dir, files, level, l),
        level > 0,
        !search::in_range(l, key),
    ensures
        !sorted::first_wins(
            soundness::pairs_in(files[disk::table_path(dir, level, l.sst_name)]),
        ).contains_key(key),
{
    let s = soundness::pairs_in(files[disk::table_path(dir, level, l.sst_name)]);
    sorted::lemma_first_wins_dom(s, key);
    if sorted::has_key(s, key) {
        let i = choose|i: int| 0 <= i < s.len() && (#[trigger] s[i]).0 == key;
        assert(search::in_range(l, s[i].0));
    }
}

/// On a level the newest table with a key decides.
proof fn lemma_level_answer(
    dir: Seq<char>,
    files: Files,
    level: nat,
    ls: Seq<LineView>,
    rest: Seq<Seq<char>>,
    key: Seq<char>,
)
    requires
        forall|j: int|
            0 <= j < ls.len() ==> soundness::is_sound_table(dir, files, level, #[trigger] ls[j]),
    ensures
        search::tables_answer(
            files,
            search::level_candidates(dir, level, ls, key) + rest,
            key,
        ) == match merge::newest(level_tables(dir, files, level, ls), key) {
            Some(info) => Ok(search::answer_of(info, key)),
            None => search::tables_answer(files, rest, key),
        },
    decreases ls.len(),
{
    let tables = level_tables(dir, files, level, ls);
    let paths = search::level_candidates(dir, level, ls, key);
    if ls.len() == 0 {
        assert(paths + rest =~= rest);
    } else {
        let older = ls.drop_last();
        let l = ls[ls.len() - 1];
        let path = disk::table_path(dir, level, l.sst_name);
        assert(soundness::is_sound_table(dir, files, level, l));
        assert forall|j: int| 0 <= j < older.len() implies soundness::is_sound_table(
            dir,
            files,
            level,
            #[trigger] older[j],
        ) by {
            assert(older[j] == ls[j]);
        }
        lemma_level_answer(dir, files, level, older, rest, key);
        assert(tables[0] == soundness::pairs_in(files[path]));
        assert(tables.drop_first() =~= level_tables(dir, files, level, older));
        if level == 0 || search::in_range(l, key) {
            let whole = paths + rest;
            assert(whole[0] == path);
            assert(whole.drop_first() =~= search::level_candidates(dir, level, older, key) + rest);
            table::lemma_search(text::lines(files[path]), soundness::pairs_in(files[path]), key);
        } else {
            lemma_out_of_range(dir, files, level, l, key);
        }
    }
}

/// Looking into the tables from a level on: those of the level decide, and if none of them has
/// the key, those of the levels after it.
proof fn lemma_levels_answer(
    dir: Seq<char>,
    files: Files,
    levels: Seq<Seq<LineView>>,
    level: nat,
    key: Seq<char>,
)
    requires
        soundness::are_sound_tables(dir, files, levels),
        level < levels.len(),
    ensures
        levels_answer(dir, files, levels, level, key) == match merge::newest(
            level_tables(dir, files, level, levels[level as int]),
            key,
        ) {
            Some(info) => Ok(search::answer_of(info, key)),
            None => levels_answer(dir, files, levels, level + 1, key),
        },
{
    let ls = levels[level as int];
    assert forall|j: int| 0 <= j < ls.len() implies soundness::is_sound_table(
        dir,
        files,
        level,
        #[trigger] ls[j],
    ) by {
        assert(ls[j] == levels[level as int][j]);
    }
    lemma_level_answer(
        dir,
        files,
        level,
        ls,
        search::candidates(dir, levels, level + 1, key),
        key,
    );
}

/// The texts of the tables that are merged.
pub open spec fn input_texts(
    dir: Seq<char>,
    files: Files,
    c: CompactionView,
) -> Seq<Seq<char>> {
    c.inputs(dir).map_values(|path: Seq<char>| files[path])
}

proof fn lemma_texts_pairs(contents: Seq<Seq<char>>)
    requires
        forall|j: int|
            0 <= j < contents.len() ==> table::table_pairs(#[trigger] contents[j]) is Ok,
    ensures
        compaction::texts_pairs(contents) == Ok::<Seq<Seq<Pair>>, StoreError>(
            contents.map_values(|content: Seq<char>| soundness::pairs_in(content)),
        ),
    decreases contents.len(),
{
    let f = |content: Seq<char>| soundness::pairs_in(content);
    if contents.len() > 0 {
        let front = contents.drop_last();
        assert forall|j: int| 0 <= j < front.len() implies table::table_pairs(
            #[trigger] front[j],
        ) is Ok by {
            assert(front[j] == contents[j]);
        }
        lemma_texts_pairs(front);
        assert(table::table_pairs(contents[contents.len() - 1]) is Ok);
        assert(front.map_values(f).push(soundness::pairs_in(contents.last())) =~= contents.map_values(f));
    } else {
        assert(contents.map_values(f) =~= Seq::empty());
    }
}

/// The pieces make up the whole, none is empty or larger than the size, and all but the last are
/// of just that size.
pub proof fn law_chunks(s: Seq<Pair>, size: nat)
    requires
        size > 0,
    ensures
        compaction::chunks(s, size).flatten() == s,
        forall|j: int|
            0 <= j < compaction::chunks(s, size).len() ==> {
                let chunk = #[trigger] compaction::chunks(s, size)[j];
                &&& 0 < chunk.len() <= size
                &&& j < compaction::chunks(s, size).len() - 1 ==> chunk.len() == size
            },
    decreases s.len(),
{
    let cs = compaction::chunks(s, size);
    if s.len() == 0 {
        assert(cs.flatten() =~= s);
    } else if s.len() <= size {
        assert(cs.drop_first() =~= Seq::empty());
        assert(cs.drop_first().flatten() =~= Seq::empty());
        assert(cs.flatten() =~= s);
    } else {
        let n = size as int;
        let rest = compaction::chunks(s.skip(n), size);
        law_chunks(s.skip(n), size);
        assert(cs.drop_first() =~= rest);
        assert(cs.flatten() =~= s.take(n) + rest.flatten());
        assert(s.take(n) + s.skip(n) =~= s);
        assert forall|j: int| 0 <= j < cs.len() implies {
            &&& 0 < (#[trigger] cs[j]).len() <= size
            &&& j < cs.len() - 1 ==> cs[j].len() == size
        } by {
            if j > 0 {
                assert(cs[j] == rest[j - 1]);
            }
        }
    }
}

/// There are as few pieces as can be.
pub proof fn law_chunk_count(s: Seq<Pair>, size: nat)
    requires
        size > 0,
    ensures
        (compaction::chunks(s, size).len() - 1) * size < s.len() || s.len() == 0,
        s.len() <= compaction::chunks(s, size).len() * size,
        s.len() == 0 ==> compaction::chunks(s, size).len() == 0,
    decreases s.len(),
{
    let n = compaction::chunks(s, size).len();
    if s.len() > size {
        law_chunk_count(s.skip(size as int), size);
        assert((n - 1) * size == (n - 2) * size + size) by (nonlinear_arith);
        assert(n * size == (n - 1) * size + size) by (nonlinear_arith);
    } else if s.len() > 0 {
        assert((n - 1) * size == 0) by (nonlinear_arith)
            requires
                n == 1,
        ;
        assert(n * size == size) by (nonlinear_arith)
            requires
                n == 1,
        ;
    }
}

/// The tables of the level after that of a compaction.
pub open spec fn next_tables(c: CompactionView) -> Seq<LineView> {
    if c.level + 1 < c.levels.len() {
        c.levels[c.level as int + 1]
    } else {
        Seq::empty()
    }
}

/// A merge leaves its level empty. It is the last, unless the next level has then so many tables
/// that they are to be merged in turn: if and only if it already had, or the merge keeps more
/// pairs than the tables that the next level still lacks to be one below the limit can hold.
pub proof fn law_compact_ends(c: CompactionView, next_ids: Seq<usize>, s: Seq<Pair>)
    requires
        c.due(),
        next_ids.len() == c.levels.len(),
    ensures
        ({
            let after = compaction::compacted_levels(c, next_ids, s);
            let lacks = LEVEL_LIMIT - 1 - next_tables(c).len();
            &&& after[c.level as int].len() == 0
            &&& CompactionView { level: c.level + 1, levels: after }.due() <==> lacks < 0 || s.len()
                > lacks * TABLE_CAPACITY
        }),
{
    let size = TABLE_CAPACITY as nat;
    let n = compaction::chunks(s, size).len();
    let lacks = LEVEL_LIMIT - 1 - next_tables(c).len();
    law_chunk_count(s, size);
    if lacks >= 0 {
        if n > lacks {
            assert((n - 1) * size >= lacks * size) by (nonlinear_arith)
                requires
                    n - 1 >= lacks,
            ;
        } else {
            assert(n * size <= lacks * size) by (nonlinear_arith)
                requires
                    n <= lacks,
            ;
        }
    }
}

pub proof fn lemma_chunk_within(s: Seq<Pair>, size: nat, j: int, i: int) -> (k: int)
    requires
        size > 0,
        0 <= j < compaction::chunks(s, size).len(),
        0 <= i < compaction::chunks(s, size)[j].len(),
    ensures
        0 <= k < s.len(),
        compaction::chunks(s, size)[j][i] == s[k],
    decreases s.len(),
{
    let cs = compaction::chunks(s, size);
    if s.len() <= size {
        i
    } else if j == 0 {
        i
    } else {
        let n = size as int;
        let rest = compaction::chunks(s.skip(n), size);
        assert(cs[j] == rest[j - 1]);
        n + lemma_chunk_within(s.skip(n), size, j - 1, i)
    }
}

/// The keys of a piece ascend where those of the whole do.
proof fn lemma_chunk_sorted(s: Seq<Pair>, size: nat, j: int)
    requires
        size > 0,
        sorted::is_sorted(s),
        0 <= j < compaction::chunks(s, size).len(),
    ensures
        sorted::is_sorted(compaction::chunks(s, size)[j]),
    decreases s.len(),
{
    let cs = compaction::chunks(s, size);
    let n = size as int;
    if s.len() > size {
        if j == 0 {
            let t = s.take(n);
            assert forall|a: int, b: int| 0 <= a < b < t.len() implies text::precedes(
                #[trigger] t[a].0,
                #[trigger] t[b].0,
            ) by {
                assert(t[a] == s[a] && t[b] == s[b]);
            }
        } else {
            lemma_skip_sorted(s, n);
            assert(cs[j] == compaction::chunks(s.skip(n), size)[j - 1]);
            lemma_chunk_sorted(s.skip(n), size, j - 1);
        }
    }
}

proof fn lemma_skip_sorted(s: Seq<Pair>, n: int)
    requires
        sorted::is_sorted(s),
        0 <= n <= s.len(),
    ensures
        sorted::is_sorted(s.skip(n)),
{
    let t = s.skip(n);
    assert forall|a: int, b: int| 0 <= a < b < t.len() implies text::precedes(
        #[trigger] t[a].0,
        #[trigger] t[b].0,
    ) by {
        assert(t[a] == s[n + a] && t[b] == s[n + b]);
    }
}

/// Where the keys of the whole ascend, looking into the pieces finds what looking into the whole
/// does.
proof fn lemma_chunks_newest(s: Seq<Pair>, size: nat, key: Seq<char>)
    requires
        size > 0,
        sorted::is_sorted(s),
    ensures
        merge::newest(compaction::chunks(s, size).reverse(), key) == sorted::first_wins(s).get(
            key,
        ),
    decreases s.len(),
{
    let cs = compaction::chunks(s, size);
    if s.len() == 0 {
        assert(cs.reverse() =~= Seq::empty());
    } else if s.len() <= size {
        assert(cs.reverse() =~= seq![s]);
        lemma_newest_one(s, key);
    } else {
        let n = size as int;
        let a = s.take(n);
        let b = s.skip(n);
        let rest = compaction::chunks(b, size);
        lemma_skip_sorted(s, n);
        lemma_chunks_newest(b, size, key);
        assert(cs.reverse() =~= rest.reverse() + seq![a]);
        lemma_newest_concat(rest.reverse(), seq![a], key);
        lemma_newest_one(a, key);
        lemma_first_wins_parts(s, n, key);
    }
}

proof fn lemma_first_wins_parts(s: Seq<Pair>, n: int, key: Seq<char>)
    requires
        sorted::is_sorted(s),
        0 <= n <= s.len(),
    ensures
        sorted::first_wins(s).get(key) == match sorted::first_wins(s.skip(n)).get(key) {
            Some(info) => Some(info),
            None => sorted::first_wins(s.take(n)).get(key),
        },
{
    let a = s.take(n);
    let b = s.skip(n);
    lemma_skip_sorted(s, n);
    assert(sorted::is_sorted(a)) by {
        assert forall|i: int, j: int| 0 <= i < j < a.len() implies text::precedes(
            #[trigger] a[i].0,
            #[trigger] a[j].0,
        ) by {
            assert(a[i] == s[i] && a[j] == s[j]);
        }
    }
    sorted::lemma_first_wins_dom(s, key);
    sorted::lemma_first_wins_dom(a, key);
    sorted::lemma_first_wins_dom(b, key);
    if sorted::has_key(b, key) {
        let i = choose|i: int| 0 <= i < b.len() && (#[trigger] b[i]).0 == key;
        assert(b[i] == s[n + i]);
        sorted::lemma_sorted_at(b, i);
        sorted::lemma_sorted_at(s, n + i);
    } else if sorted::has_key(a, key) {
        let i = choose|i: int| 0 <= i < a.len() && (#[trigger] a[i]).0 == key;
        assert(a[i] == s[i]);
        sorted::lemma_sorted_at(a, i);
        sorted::lemma_sorted_at(s, i);
    } else if sorted::has_key(s, key) {
        let i = choose|i: int| 0 <= i < s.len() && (#[trigger] s[i]).0 == key;
        if i < n {
            assert(a[i] == s[i]);
        } else {
            assert(b[i - n] == s[i]);
        }
    }
}

/// The path of one of the merged tables.
spec fn chunk_path(dir: Seq<char>, level: nat, first: nat, j: int) -> Seq<char> {
    disk::table_path(dir, level, manifest::table_name((first + j) as nat))
}

proof fn lemma_chunk_paths(dir: Seq<char>, level: nat, first: nat, i: int, j: int)
    requires
        0 <= i,
        0 <= j,
        chunk_path(dir, level, first, i) == chunk_path(dir, level, first, j),
    ensures
        i == j,
{
    let a = (first + i) as nat;
    let b = (first + j) as nat;
    disk::lemma_table_path_injective(
        dir,
        level,
        manifest::table_name(a),
        level,
        manifest::table_name(b),
    );
    manifest::lemma_table_name_injective(a, b);
}

proof fn lemma_run_table(dir: Seq<char>, files: Files, level: nat, id: nat, s: Seq<Pair>)
    ensures
        disk::run(files, storage::table_effects(dir, level, id, s)) == files.insert(
            disk::table_path(dir, level, manifest::table_name(id)),
            table::table_text(s),
        ),
{
    let effects = storage::table_effects(dir, level, id, s);
    assert(effects.drop_last() =~= seq![effects[0]]);
    disk::lemma_run_one(files, effects[0]);
}

/// The merged tables are written, and no other file changes.
proof fn lemma_run_chunks(
    dir: Seq<char>,
    files: Files,
    level: nat,
    cs: Seq<Seq<Pair>>,
    first: nat,
)
    ensures
        ({
            let after = disk::run(files, compaction::chunk_effects(dir, level, cs, first));
            &&& forall|j: int|
                0 <= j < cs.len() ==> after.contains_key(
                    #[trigger] chunk_path(dir, level, first, j),
                ) && after[chunk_path(dir, level, first, j)] == table::table_text(cs[j])
            &&& forall|q: Seq<char>|
                (forall|j: int| 0 <= j < cs.len() ==> #[trigger] chunk_path(dir, level, first, j) != q)
                    ==> #[trigger] soundness::is_same_file(files, after, q)
        }),
    decreases cs.len(),
{
    let effects = compaction::chunk_effects(dir, level, cs, first);
    let after = disk::run(files, effects);
    if cs.len() > 0 {
        let front = cs.drop_last();
        let n = front.len() as int;
        let before = disk::run(files, compaction::chunk_effects(dir, level, front, first));
        lemma_run_chunks(dir, files, level, front, first);
        let id = (first + cs.len() - 1) as nat;
        disk::lemma_run_concat(
            files,
            compaction::chunk_effects(dir, level, front, first),
            storage::table_effects(dir, level, id, cs.last()),
        );
        lemma_run_table(dir, before, level, id, cs.last());
        let path = chunk_path(dir, level, first, n);
        assert(after == before.insert(path, table::table_text(cs.last())));
        assert forall|j: int| 0 <= j < cs.len() implies after.contains_key(
            #[trigger] chunk_path(dir, level, first, j),
        ) && after[chunk_path(dir, level, first, j)] == table::table_text(cs[j]) by {
            if j < n {
                if chunk_path(dir, level, first, j) == path {
                    lemma_chunk_paths(dir, level, first, j, n);
                }
                assert(front[j] == cs[j]);
            }
        }
        assert forall|q: Seq<char>|
            (forall|j: int|
                0 <= j < cs.len() ==> #[trigger] chunk_path(dir, level, first, j)
                    != q) implies #[trigger] soundness::is_same_file(files, after, q) by {
            assert(path != q);
            assert(soundness::is_same_file(files, before, q));
        }
    }
}

/// The tables of a level are removed, and no other file changes.
proof fn lemma_run_remove(
    dir: Seq<char>,
    files: Files,
    level: nat,
    ls: Seq<LineView>,
    q: Seq<char>,
)
    requires
        forall|j: int|
            0 <= j < ls.len() ==> disk::table_path(dir, level, (#[trigger] ls[j]).sst_name) != q,
    ensures
        soundness::is_same_file(files, disk::run(files, compaction::remove_effects(dir, level, ls)), q),
    decreases ls.len(),
{
    if ls.len() > 0 {
        let front = ls.drop_last();
        assert forall|j: int| 0 <= j < front.len() implies disk::table_path(
            dir,
            level,
            (#[trigger] front[j]).sst_name,
        ) != q by {
            assert(front[j] == ls[j]);
        }
        lemma_run_remove(dir, files, level, front, q);
        assert(compaction::remove_effects(dir, level, ls).drop_last()
            =~= compaction::remove_effects(dir, level, front));
        assert(disk::table_path(dir, level, ls[ls.len() - 1].sst_name) != q);
    }
}

/// The manifest is replaced, and no other file is left changed but its copy.
proof fn lemma_run_manifest(dir: Seq<char>, files: Files, levels: Seq<Seq<LineView>>)
    ensures
        disk::run(files, storage::manifest_effects(dir, levels)) == files.insert(
            disk::manifest_tmp_path(dir),
            manifest::manifest_text(levels),
        ).remove(disk::manifest_tmp_path(dir)).insert(
            disk::manifest_path(dir),
            manifest::manifest_text(levels),
        ),
{
    let effects = storage::manifest_effects(dir, levels);
    assert(effects.drop_last() =~= seq![effects[0], effects[1]]);
    assert(effects.drop_last().drop_last() =~= seq![effects[0]]);
    disk::lemma_run_one(files, effects[0]);
    let written = disk::apply(files, effects[0]);
    assert(disk::run(files, seq![effects[0], effects[1]]) == disk::apply(written, effects[1]));
}

/// What is done to the files when the tables of a level are merged.
pub open spec fn compacting(store: StoreView, c: CompactionView, s: Seq<Pair>) -> Seq<EffectView> {
    compaction::compact_effects(store.data_dir, c, store.next_ids, s)
}

/// The store after the tables of a level were merged.
pub open spec fn compacted(store: StoreView, c: CompactionView, s: Seq<Pair>) -> StoreView {
    StoreView { next_ids: compaction::compacted_ids(c, store.next_ids, s), ..store }
}

/// The files after a merge: the merged tables and the new manifest are there, and the files that
/// are none of these, nor of the level, nor the copy of the manifest, are as they were.
proof fn lemma_run_compact(store: StoreView, files: Files, c: CompactionView, s: Seq<Pair>)
    ensures
        ({
            let dir = store.data_dir;
            let after = disk::run(files, compacting(store, c, s));
            let next = c.level + 1;
            let first = compaction::next_id(c, store.next_ids);
            let cs = compaction::chunks(s, TABLE_CAPACITY as nat);
            let levels = compaction::compacted_levels(c, store.next_ids, s);
            &&& after.contains_key(disk::manifest_path(dir))
            &&& after[disk::manifest_path(dir)] == manifest::manifest_text(levels)
            &&& soundness::is_same_file(files, after, disk::wal_path(dir))
            &&& forall|j: int|
                0 <= j < cs.len() ==> after.contains_key(
                    #[trigger] chunk_path(dir, next, first, j),
                ) && after[chunk_path(dir, next, first, j)] == table::table_text(cs[j])
            &&& forall|level: nat, name: Seq<char>|
                level != c.level && (forall|j: int|
                    0 <= j < cs.len() ==> #[trigger] chunk_path(dir, next, first, j)
                        != disk::table_path(dir, level, name)) ==> soundness::is_same_file(
                    files,
                    after,
                    #[trigger] disk::table_path(dir, level, name),
                )
        }),
{
    let dir = store.data_dir;
    let next = c.level + 1;
    let first = compaction::next_id(c, store.next_ids);
    let cs = compaction::chunks(s, TABLE_CAPACITY as nat);
    let levels = compaction::compacted_levels(c, store.next_ids, s);
    let ls = c.levels[c.level as int];
    let start = if compaction::opens_level(c, store.next_ids) {
        seq![EffectView::CreateDir { path: disk::level_path(dir, store.next_ids.len()) }]
    } else {
        Seq::empty()
    };
    let e1 = compaction::chunk_effects(dir, next, cs, first);
    let e2 = compaction::remove_effects(dir, c.level, ls);
    let e3 = storage::manifest_effects(dir, levels);
    assert(compacting(store, c, s) == start + e1 + e2 + e3);
    disk::lemma_run_concat(files, start + e1 + e2, e3);
    disk::lemma_run_concat(files, start + e1, e2);
    disk::lemma_run_concat(files, start, e1);
    if start.len() > 0 {
        disk::lemma_run_one(files, start[0]);
        assert(start =~= seq![start[0]]);
    }
    assert(disk::run(files, start) == files);
    let f1 = disk::run(files, e1);
    let f2 = disk::run(f1, e2);
    let after = disk::run(f2, e3);
    assert(after == disk::run(files, compacting(store, c, s)));
    lemma_run_chunks(dir, files, next, cs, first);
    lemma_run_manifest(dir, f2, levels);
    disk::lemma_paths_differ(dir, 0, Seq::empty());
    assert(soundness::is_same_file(files, after, disk::wal_path(dir))) by {
        let q = disk::wal_path(dir);
        assert forall|j: int| 0 <= j < cs.len() implies #[trigger] chunk_path(dir, next, first, j)
            != q by {
            disk::lemma_paths_differ(dir, next, manifest::table_name((first + j) as nat));
        }
        assert(soundness::is_same_file(files, f1, q));
        assert forall|j: int| 0 <= j < ls.len() implies disk::table_path(
            dir,
            c.level,
            (#[trigger] ls[j]).sst_name,
        ) != q by {
            disk::lemma_paths_differ(dir, c.level, ls[j].sst_name);
        }
        lemma_run_remove(dir, f1, c.level, ls, q);
    }
    assert forall|level: nat, name: Seq<char>| level != c.level implies soundness::is_same_file(
        f1,
        after,
        #[trigger] disk::table_path(dir, level, name),
    ) by {
        let q = disk::table_path(dir, level, name);
        disk::lemma_paths_differ(dir, level, name);
        assert forall|j: int| 0 <= j < ls.len() implies disk::table_path(
            dir,
            c.level,
            (#[trigger] ls[j]).sst_name,
        ) != q by {
            if disk::table_path(dir, c.level, ls[j].sst_name) == q {
                disk::lemma_table_path_injective(dir, c.level, ls[j].sst_name, level, name);
            }
        }
        lemma_run_remove(dir, f1, c.level, ls, q);
    }
    assert forall|j: int| 0 <= j < cs.len() implies after.contains_key(
        #[trigger] chunk_path(dir, next, first, j),
    ) && after[chunk_path(dir, next, first, j)] == table::table_text(cs[j]) by {
        let name = manifest::table_name((first + j) as nat);
        assert(soundness::is_same_file(f1, after, disk::table_path(dir, next, name)));
    }
    assert forall|level: nat, name: Seq<char>|
        level != c.level && (forall|j: int|
            0 <= j < cs.len() ==> #[trigger] chunk_path(dir, next, first, j) != disk::table_path(
                dir,
                level,
                name,
            )) implies soundness::is_same_file(files, after, #[trigger] disk::table_path(dir, level, name)) by {
        assert(soundness::is_same_file(files, f1, disk::table_path(dir, level, name)));
    }
}

/// What the tables of the level of a compaction hold, newest first.
pub open spec fn inputs_in(dir: Seq<char>, files: Files, c: CompactionView) -> Seq<Seq<Pair>> {
    level_tables(dir, files, c.level, c.levels[c.level as int])
}

/// Whether the merged tables can be written: there are numbers for them, and their lines can be
/// read back.
pub open spec fn can_compact(store: StoreView, c: CompactionView, s: Seq<Pair>) -> bool {
    &&& c.due()
    &&& compaction::next_id(c, store.next_ids) + compaction::chunks(s, TABLE_CAPACITY as nat).len()
        <= usize::MAX
    &&& forall|i: int| 0 <= i < s.len() ==> table::reads_back(#[trigger] s[i])
}

/// Whether the files are such that a merge keeps what is in them: the manifest lists the levels,
/// the tables are sound, there is a next number for each level, no table of the next level bears
/// the number of a merged one, and the manifest can hold the key ranges of the merged tables.
pub open spec fn is_mergeable(
    store: StoreView,
    files: Files,
    c: CompactionView,
    s: Seq<Pair>,
) -> bool {
    &&& soundness::is_catalog(store.data_dir, files, c.levels)
    &&& store.next_ids.len() == c.levels.len()
    &&& c.level + 1 < c.levels.len() ==> soundness::is_free(
        c.levels[c.level as int + 1],
        compaction::next_id(c, store.next_ids),
        compaction::chunks(s, TABLE_CAPACITY as nat).len(),
    )
    &&& have_plain_ends(s)
}

/// Whether the manifest can hold the first and the last key of each of the merged tables.
pub open spec fn have_plain_ends(s: Seq<Pair>) -> bool {
    let cs = compaction::chunks(s, TABLE_CAPACITY as nat);
    forall|j: int|
        0 <= j < cs.len() ==> manifest::is_plain((#[trigger] cs[j])[0].0) && manifest::is_plain(
            cs[j].last().0,
        )
}

/// Whether looking into the files gives what it gave before a merge of the tables of a level, but
/// for keys of which the merge dropped the mark that they were deleted while a table of a deeper
/// level has them.
pub open spec fn finds_but_deleted(
    dir: Seq<char>,
    files_after: Files,
    files: Files,
    c: CompactionView,
) -> bool {
    forall|key: Seq<char>|
        !reappears(dir, files, c, key) ==> #[trigger] search::disk_answer(dir, files_after, key)
            == search::disk_answer(dir, files, key)
}

/// Whether the newest table of the level that has the key has it as deleted, while looking into
/// the deeper levels finds it, or finds something wrong.
pub open spec fn reappears(
    dir: Seq<char>,
    files: Files,
    c: CompactionView,
    key: Seq<char>,
) -> bool {
    &&& merge::newest(inputs_in(dir, files, c), key) matches Some(info)
    &&& info.deleted
    &&& levels_answer(dir, files, c.levels, c.level + 1, key) != Ok::<Answer, StoreError>(
        Err(search::not_found(key)),
    )
}

/// The tables of a level are merged to what the newest of them hold, without the deleted keys.
pub proof fn lemma_merge_output(tables: Seq<Seq<Pair>>, key: Seq<char>)
    requires
        forall|j: int| 0 <= j < tables.len() ==> sorted::is_sorted(#[trigger] tables[j]),
    ensures
        sorted::is_sorted(merge::merge_output(tables)),
        sorted::first_wins(merge::merge_output(tables)).get(key) == match merge::newest(
            tables,
            key,
        ) {
            Some(info) => if info.deleted {
                None
            } else {
                Some(info)
            },
            None => None,
        },
{
    let all = merge::merged(tables);
    sorted::lemma_first_wins_finite(all);
    sorted::law_listing(sorted::live(sorted::first_wins(all)));
    merge::law_merge_newest_wins(tables, key);
}

proof fn lemma_compact_tables(store: StoreView, files: Files, c: CompactionView, s: Seq<Pair>)
    requires
        is_mergeable(store, files, c, s),
        can_compact(store, c, s),
        sorted::is_sorted(s),
    ensures
        soundness::are_sound_tables(
            store.data_dir,
            disk::run(files, compacting(store, c, s)),
            compaction::compacted_levels(c, store.next_ids, s),
        ),
        manifest::is_writable(compaction::compacted_levels(c, store.next_ids, s)),
        forall|i: int, j: int|
            0 <= i < c.levels.len() && i != c.level && 0 <= j < c.levels[i].len()
                ==> soundness::is_same_file(
                files,
                disk::run(files, compacting(store, c, s)),
                disk::table_path(
                    store.data_dir,
                    i as nat,
                    (#[trigger] c.levels[i][j]).sst_name,
                ),
            ),
{
    let dir = store.data_dir;
    let after = disk::run(files, compacting(store, c, s));
    let size = TABLE_CAPACITY as nat;
    let cs = compaction::chunks(s, size);
    let first = compaction::next_id(c, store.next_ids);
    let next = c.level as int + 1;
    let lv = compaction::compacted_levels(c, store.next_ids, s);
    let added = compaction::chunk_lines(cs, first);
    let there = next_tables(c);
    lemma_run_compact(store, files, c, s);
    assert(lv[next] =~= there + added);
    assert(lv[c.level as int] =~= Seq::empty());
    assert forall|i: int, j: int|
        0 <= i < c.levels.len() && i != c.level && 0 <= j
            < c.levels[i].len() implies soundness::is_same_file(
        files,
        after,
        disk::table_path(dir, i as nat, (#[trigger] c.levels[i][j]).sst_name),
    ) by {
        let name = c.levels[i][j].sst_name;
        assert forall|k: int| 0 <= k < cs.len() implies #[trigger] chunk_path(
            dir,
            next as nat,
            first,
            k,
        ) != disk::table_path(dir, i as nat, name) by {
            let id = (first + k) as nat;
            soundness::lemma_fresh(dir, c.levels, next as nat, first, cs.len(), id, i, j);
        }
    }
    assert forall|i: int, j: int| 0 <= i < lv.len() && 0 <= j < lv[i].len() implies {
        &&& soundness::is_sound_table(dir, after, i as nat, #[trigger] lv[i][j])
        &&& manifest::is_writable_line(i as nat, lv[i][j])
    } by {
        if i != next || j < there.len() {
            assert(lv[i][j] == c.levels[i][j]);
            assert(soundness::is_sound_table(dir, files, i as nat, c.levels[i][j]));
            assert(manifest::is_writable_line(i as nat, c.levels[i][j]));
            assert(soundness::is_same_file(
                files,
                after,
                disk::table_path(dir, i as nat, c.levels[i][j].sst_name),
            ));
        } else {
            let k = j - there.len();
            assert(manifest::is_plain(cs[k][0].0));
            lemma_added(s, size, first, k);
            let l = added[k];
            assert(lv[i][j] == l);
            let path = chunk_path(dir, next as nat, first, k);
            assert(path == disk::table_path(dir, next as nat, l.sst_name));
            assert(after.contains_key(path) && after[path] == table::table_text(cs[k]));
        }
    }
}

/// The entry of a merged table can be read back, and the table is what the entry says.
proof fn lemma_added(s: Seq<Pair>, size: nat, first: nat, k: int)
    requires
        size > 0,
        sorted::is_sorted(s),
        forall|i: int| 0 <= i < s.len() ==> table::reads_back(#[trigger] s[i]),
        0 <= k < compaction::chunks(s, size).len(),
        manifest::is_plain(compaction::chunks(s, size)[k][0].0),
        manifest::is_plain(compaction::chunks(s, size)[k].last().0),
    ensures
        ({
            let chunk = compaction::chunks(s, size)[k];
            let l = compaction::chunk_lines(compaction::chunks(s, size), first)[k];
            &&& forall|level: nat| level > 0 ==> manifest::is_writable_line(level, l)
            &&& soundness::is_table(chunk)
            &&& sorted::is_sorted(chunk)
            &&& forall|i: int| 0 <= i < chunk.len() ==> search::in_range(l, (#[trigger] chunk[i]).0)
        }),
{
    let cs = compaction::chunks(s, size);
    let chunk = cs[k];
    let l = compaction::chunk_lines(cs, first)[k];
    law_chunks(s, size);
    lemma_chunk_sorted(s, size, k);
    manifest::lemma_table_name((first + k) as nat);
    assert forall|i: int| 0 <= i < chunk.len() implies table::reads_back(#[trigger] chunk[i]) by {
        let n = lemma_chunk_within(s, size, k, i);
        assert(table::reads_back(s[n]));
    }
    table::lemma_table_pairs(chunk);
    assert forall|i: int| 0 <= i < chunk.len() implies search::in_range(
        l,
        (#[trigger] chunk[i]).0,
    ) by {
        let key = chunk[i].0;
        text::lemma_precedes_irreflexive(key);
        if text::precedes(key, chunk[0].0) {
            text::lemma_precedes_transitive(key, chunk[0].0, key);
        }
        if text::precedes(chunk.last().0, key) {
            text::lemma_precedes_transitive(key, chunk.last().0, key);
        }
    }
}

proof fn lemma_numbered_more(ls: Seq<LineView>, cs: Seq<Seq<Pair>>, first: nat)
    requires
        soundness::is_numbered(ls, first),
    ensures
        soundness::is_numbered(ls + compaction::chunk_lines(cs, first), first + cs.len()),
{
    let added = compaction::chunk_lines(cs, first);
    let all = ls + added;
    assert forall|j: int| 0 <= j < all.len() implies {
        let name = (#[trigger] all[j]).sst_name;
        &&& name == manifest::table_name(manifest::number_in(name))
        &&& manifest::number_in(name) < first + cs.len()
        &&& j < ls.len() ==> manifest::number_in(name) < first
        &&& j >= ls.len() ==> manifest::number_in(name) == first + j - ls.len()
    } by {
        if j < ls.len() {
            assert(all[j] == ls[j]);
        } else {
            manifest::lemma_number_in((first + j - ls.len()) as nat);
        }
    }
    assert forall|i: int, j: int| 0 <= i < j < all.len() implies manifest::number_in(
        (#[trigger] all[i]).sst_name,
    ) < manifest::number_in((#[trigger] all[j]).sst_name) by {
        if j < ls.len() {
            assert(all[i] == ls[i] && all[j] == ls[j]);
        }
    }
}

proof fn lemma_compact_answer(
    store: StoreView,
    files: Files,
    c: CompactionView,
    level: nat,
    key: Seq<char>,
)
    requires
        is_mergeable(store, files, c, merge::merge_output(inputs_in(store.data_dir, files, c))),
        can_compact(store, c, merge::merge_output(inputs_in(store.data_dir, files, c))),
        !reappears(store.data_dir, files, c, key),
        level <= c.level,
    ensures
        ({
            let s = merge::merge_output(inputs_in(store.data_dir, files, c));
            levels_answer(
                store.data_dir,
                disk::run(files, compacting(store, c, s)),
                compaction::compacted_levels(c, store.next_ids, s),
                level,
                key,
            ) == levels_answer(store.data_dir, files, c.levels, level, key)
        }),
    decreases c.level - level,
{
    let dir = store.data_dir;
    let tables = inputs_in(dir, files, c);
    let s = merge::merge_output(tables);
    let after = disk::run(files, compacting(store, c, s));
    let lv = compaction::compacted_levels(c, store.next_ids, s);
    lemma_inputs(store.data_dir, files, c);
    lemma_merge_output(tables, key);
    lemma_compact_tables(store, files, c, s);
    lemma_levels_answer(dir, files, c.levels, level, key);
    lemma_levels_answer(dir, after, lv, level, key);
    if level < c.level {
        lemma_compact_answer(store, files, c, level + 1, key);
        let ls = c.levels[level as int];
        assert(lv[level as int] == ls);
        assert(level_tables(dir, after, level, ls) =~= level_tables(dir, files, level, ls)) by {
            assert forall|j: int| 0 <= j < ls.len() implies after[disk::table_path(
                dir,
                level,
                (#[trigger] ls[j]).sst_name,
            )] == files[disk::table_path(dir, level, ls[j].sst_name)] by {
                assert(ls[j] == c.levels[level as int][j]);
                assert(soundness::is_same_file(
                    files,
                    after,
                    disk::table_path(dir, level, c.levels[level as int][j].sst_name),
                ));
            }
        }
    } else {
        assert(level_tables(dir, after, level, lv[level as int]) =~= Seq::empty());
        lemma_compact_next(store, files, c, key);
    }
}

/// The tables of the next level after a merge: the merged ones are the newest.
proof fn lemma_compact_next_tables(
    store: StoreView,
    files: Files,
    c: CompactionView,
    s: Seq<Pair>,
)
    requires
        is_mergeable(store, files, c, s),
        can_compact(store, c, s),
        sorted::is_sorted(s),
    ensures
        level_tables(
            store.data_dir,
            disk::run(files, compacting(store, c, s)),
            c.level + 1,
            compaction::compacted_levels(c, store.next_ids, s)[c.level as int + 1],
        ) == compaction::chunks(s, TABLE_CAPACITY as nat).reverse() + level_tables(
            store.data_dir,
            files,
            c.level + 1,
            next_tables(c),
        ),
{
    let dir = store.data_dir;
    let after = disk::run(files, compacting(store, c, s));
    let lv = compaction::compacted_levels(c, store.next_ids, s);
    let size = TABLE_CAPACITY as nat;
    let cs = compaction::chunks(s, size);
    let first = compaction::next_id(c, store.next_ids);
    let next = c.level + 1;
    let added = compaction::chunk_lines(cs, first);
    let there = next_tables(c);
    let ls = lv[next as int];
    let old_tables = level_tables(dir, files, next, there);
    let new_tables = level_tables(dir, after, next, ls);
    lemma_compact_tables(store, files, c, s);
    lemma_run_compact(store, files, c, s);
    assert(ls =~= there + added);
    assert forall|j: int| 0 <= j < new_tables.len() implies new_tables[j] == (cs.reverse()
        + old_tables)[j] by {
        let i = ls.len() - 1 - j;
        if j < cs.len() {
            let k = cs.len() - 1 - j;
            assert(ls[i] == added[k]);
            assert(manifest::is_plain(cs[k][0].0));
            lemma_added(s, size, first, k);
            let path = chunk_path(dir, next, first, k);
            assert(path == disk::table_path(dir, next, ls[i].sst_name));
            assert(after[path] == table::table_text(cs[k]));
        } else {
            assert(ls[i] == c.levels[next as int][i]);
            assert(soundness::is_same_file(
                files,
                after,
                disk::table_path(dir, next, c.levels[next as int][i].sst_name),
            ));
        }
    }
    assert(new_tables =~= cs.reverse() + old_tables);
}

/// The answer of the level that the merged tables were written to, and of those after it.
proof fn lemma_compact_next(store: StoreView, files: Files, c: CompactionView, key: Seq<char>)
    requires
        is_mergeable(store, files, c, merge::merge_output(inputs_in(store.data_dir, files, c))),
        can_compact(store, c, merge::merge_output(inputs_in(store.data_dir, files, c))),
    ensures
        ({
            let s = merge::merge_output(inputs_in(store.data_dir, files, c));
            levels_answer(
                store.data_dir,
                disk::run(files, compacting(store, c, s)),
                compaction::compacted_levels(c, store.next_ids, s),
                c.level + 1,
                key,
            ) == match sorted::first_wins(s).get(key) {
                Some(info) => Ok(search::answer_of(info, key)),
                None => levels_answer(store.data_dir, files, c.levels, c.level + 1, key),
            }
        }),
{
    let dir = store.data_dir;
    let tables = inputs_in(dir, files, c);
    let s = merge::merge_output(tables);
    let after = disk::run(files, compacting(store, c, s));
    let lv = compaction::compacted_levels(c, store.next_ids, s);
    let size = TABLE_CAPACITY as nat;
    let cs = compaction::chunks(s, size);
    let next = c.level + 1;
    lemma_inputs(dir, files, c);
    lemma_merge_output(tables, key);
    lemma_compact_tables(store, files, c, s);
    lemma_compact_next_tables(store, files, c, s);
    lemma_levels_answer(dir, after, lv, next, key);
    let old_tables = level_tables(dir, files, next, next_tables(c));
    lemma_newest_concat(cs.reverse(), old_tables, key);
    lemma_chunks_newest(s, size, key);
    if next < c.levels.len() {
        lemma_levels_answer(dir, files, c.levels, next, key);
        soundness::lemma_same_levels(dir, lv, c.levels, next + 1, key);
        lemma_deeper_same(dir, files, after, c.levels, next + 1, key);
    } else {
        assert(old_tables =~= Seq::empty());
    }
}

/// Where the tables from a level on are the same, so is what looking into them gives.
proof fn lemma_deeper_same(
    dir: Seq<char>,
    f: Files,
    g: Files,
    levels: Seq<Seq<LineView>>,
    level: nat,
    key: Seq<char>,
)
    requires
        forall|i: int, j: int|
            level <= i < levels.len() && 0 <= j < levels[i].len() ==> soundness::is_same_file(
                f,
                g,
                disk::table_path(dir, i as nat, (#[trigger] levels[i][j]).sst_name),
            ),
    ensures
        levels_answer(dir, f, levels, level, key) == levels_answer(dir, g, levels, level, key),
{
    soundness::lemma_same_candidates(dir, f, g, levels, level, key);
    soundness::lemma_same_answer(f, g, search::candidates(dir, levels, level, key), key);
}

/// A merge goes through wherever its tables can be written, leaves the manifest and the tables in
/// order, and leaves what looking for a key gives as it was, unless it drops the mark that the key
/// was deleted while a table of a deeper level still has the key. Whatever is in the log and in
/// memory does not matter.
pub proof fn law_compact_keeps(
    store: StoreView,
    files: Files,
    c: CompactionView,
    s: Seq<Pair>,
)
    requires
        is_mergeable(store, files, c, s),
        s == merge::merge_output(inputs_in(store.data_dir, files, c)),
        can_compact(store, c, s),
    ensures
        compaction::compact_check(c, store.next_ids, input_texts(store.data_dir, files, c)) == Ok::<
            Seq<Pair>,
            StoreError,
        >(s),
        soundness::is_catalog(
            store.data_dir,
            disk::run(files, compacting(store, c, s)),
            compaction::compacted_levels(c, store.next_ids, s),
        ),
        finds_but_deleted(
            store.data_dir,
            disk::run(files, compacting(store, c, s)),
            files,
            c,
        ),
{
    let dir = store.data_dir;
    let tables = inputs_in(dir, files, c);
    let files_after = disk::run(files, compacting(store, c, s));
    lemma_inputs(dir, files, c);
    lemma_merge_output(tables, Seq::empty());
    lemma_compact_tables(store, files, c, s);
    lemma_run_compact(store, files, c, s);
    manifest::law_manifest_round_trip(compaction::compacted_levels(c, store.next_ids, s));
    assert forall|key: Seq<char>|
        !reappears(dir, files, c, key) implies #[trigger] search::disk_answer(
        dir,
        files_after,
        key,
    ) == search::disk_answer(dir, files, key) by {
        lemma_compact_answer(store, files, c, 0, key);
    }
}

/// The files after a merge, whatever they were before: the manifest lists the new levels, of which
/// the merged one is empty, there is a next number for each, the merged tables and the copy of the
/// manifest are gone, and the log is as it was.
pub proof fn law_compact_files(
    store: StoreView,
    files: Files,
    c: CompactionView,
    s: Seq<Pair>,
    j: int,
)
    requires
        c.due(),
        manifest::is_writable(c.levels),
        store.next_ids.len() == c.levels.len(),
        have_plain_ends(s),
        0 <= j < c.levels[c.level as int].len(),
    ensures
        ({
            let dir = store.data_dir;
            let after = disk::run(files, compacting(store, c, s));
            let levels = compaction::compacted_levels(c, store.next_ids, s);
            &&& after.contains_key(disk::manifest_path(dir))
            &&& manifest::manifest_levels(after[disk::manifest_path(dir)]) == Ok::<
                Seq<Seq<LineView>>,
                StoreError,
            >(levels)
            &&& levels[c.level as int].len() == 0
            &&& compacted(store, c, s).next_ids.len() == levels.len()
            &&& !after.contains_key(
                disk::table_path(dir, c.level, c.levels[c.level as int][j].sst_name),
            )
            &&& !after.contains_key(disk::manifest_tmp_path(dir))
            &&& soundness::is_same_file(files, after, disk::wal_path(dir))
        }),
{
    let lv = compaction::compacted_levels(c, store.next_ids, s);
    let next = c.level as int + 1;
    let cs = compaction::chunks(s, TABLE_CAPACITY as nat);
    let first = compaction::next_id(c, store.next_ids);
    let added = compaction::chunk_lines(cs, first);
    let there = next_tables(c);
    lemma_run_compact(store, files, c, s);
    lemma_run_gone(store, files, c, s, j);
    assert(lv[next] =~= there + added);
    assert forall|i: int, k: int|
        0 <= i < lv.len() && 0 <= k < lv[i].len() implies manifest::is_writable_line(
        i as nat,
        #[trigger] lv[i][k],
    ) by {
        if i != next || k < there.len() {
            assert(lv[i][k] == c.levels[i][k]);
        } else {
            let n = k - there.len();
            assert(manifest::is_plain(cs[n][0].0));
            manifest::lemma_table_name((first + n) as nat);
            assert(lv[i][k] == added[n]);
        }
    }
    manifest::law_manifest_round_trip(lv);
}

/// The tables that were merged are gone, and so is the copy of the manifest.
proof fn lemma_run_gone(store: StoreView, files: Files, c: CompactionView, s: Seq<Pair>, j: int)
    requires
        c.due(),
        0 <= j < c.levels[c.level as int].len(),
    ensures
        ({
            let after = disk::run(files, compacting(store, c, s));
            &&& !after.contains_key(
                disk::table_path(
                    store.data_dir,
                    c.level,
                    c.levels[c.level as int][j].sst_name,
                ),
            )
            &&& !after.contains_key(disk::manifest_tmp_path(store.data_dir))
        }),
{
    let dir = store.data_dir;
    let levels = compaction::compacted_levels(c, store.next_ids, s);
    let ls = c.levels[c.level as int];
    let e2 = compaction::remove_effects(dir, c.level, ls);
    let e3 = storage::manifest_effects(dir, levels);
    let all = compacting(store, c, s);
    let e1 = all.take(all.len() - e2.len() - e3.len());
    assert(all =~= e1 + e2 + e3);
    disk::lemma_run_concat(files, e1 + e2, e3);
    disk::lemma_run_concat(files, e1, e2);
    let f1 = disk::run(files, e1);
    lemma_run_removed(dir, f1, c.level, ls, j);
    lemma_run_manifest(dir, disk::run(f1, e2), levels);
    disk::lemma_paths_differ(dir, c.level, ls[j].sst_name);
}

proof fn lemma_run_removed(
    dir: Seq<char>,
    files: Files,
    level: nat,
    ls: Seq<LineView>,
    j: int,
)
    requires
        0 <= j < ls.len(),
    ensures
        !disk::run(files, compaction::remove_effects(dir, level, ls)).contains_key(
            disk::table_path(dir, level, ls[j].sst_name),
        ),
    decreases ls.len(),
{
    let front = ls.drop_last();
    assert(compaction::remove_effects(dir, level, ls).drop_last() =~= compaction::remove_effects(
        dir,
        level,
        front,
    ));
    if j < front.len() {
        lemma_run_removed(dir, files, level, front, j);
        assert(front[j] == ls[j]);
    }
}

/// The files of a store stay its own in a merge. The log and the table in memory are as they were.
pub proof fn law_compact_sound(store: StoreView, files: Files, c: CompactionView, s: Seq<Pair>)
    requires
        soundness::is_sound(store, files, c.levels),
        is_mergeable(store, files, c, s),
        s == merge::merge_output(inputs_in(store.data_dir, files, c)),
        can_compact(store, c, s),
    ensures
        soundness::is_sound(
            compacted(store, c, s),
            disk::run(files, compacting(store, c, s)),
            compaction::compacted_levels(c, store.next_ids, s),
        ),
{
    let dir = store.data_dir;
    let lv = compaction::compacted_levels(c, store.next_ids, s);
    lemma_inputs(dir, files, c);
    lemma_merge_output(inputs_in(dir, files, c), Seq::empty());
    lemma_compact_tables(store, files, c, s);
    lemma_run_compact(store, files, c, s);
    assert(lv[0] == c.levels[0] || lv[0].len() == 0);
}

/// What a table holds for a key stands in one of its pairs.
proof fn lemma_newest_from(tables: Seq<Seq<Pair>>, key: Seq<char>) -> (at: (int, int))
    requires
        forall|j: int| 0 <= j < tables.len() ==> sorted::is_sorted(#[trigger] tables[j]),
        merge::newest(tables, key) is Some,
    ensures
        0 <= at.0 < tables.len(),
        0 <= at.1 < tables[at.0].len(),
        tables[at.0][at.1] == (key, merge::newest(tables, key)->0),
    decreases tables.len(),
{
    let t = tables[0];
    if sorted::first_wins(t).contains_key(key) {
        sorted::lemma_first_wins_dom(t, key);
        let k = choose|k: int| 0 <= k < t.len() && (#[trigger] t[k]).0 == key;
        assert(sorted::is_sorted(tables[0]));
        sorted::lemma_sorted_at(t, k);
        (0, k)
    } else {
        let rest = tables.drop_first();
        assert forall|j: int| 0 <= j < rest.len() implies sorted::is_sorted(#[trigger] rest[j]) by {
            assert(rest[j] == tables[j + 1]);
        }
        let at = lemma_newest_from(rest, key);
        (at.0 + 1, at.1)
    }
}

/// A key that no table of the level has as deleted does not reappear.
pub proof fn lemma_no_reappearance(
    dir: Seq<char>,
    files: Files,
    c: CompactionView,
    key: Seq<char>,
)
    requires
        soundness::are_sound_tables(dir, files, c.levels),
        c.level < c.levels.len(),
        soundness::tables_hold_only(
            dir,
            files,
            c.levels,
            |p: Pair| p.0 == key ==> !p.1.deleted,
        ),
    ensures
        !reappears(dir, files, c, key),
{
    let kind = |p: Pair| p.0 == key ==> !p.1.deleted;
    let tables = inputs_in(dir, files, c);
    let ls = c.levels[c.level as int];
    lemma_inputs(dir, files, c);
    if merge::newest(tables, key) is Some {
        let at = lemma_newest_from(tables, key);
        let l = c.levels[c.level as int][ls.len() - 1 - at.0];
        assert(soundness::holds_only(
            soundness::pairs_in(files[disk::table_path(dir, c.level, l.sst_name)]),
            kind,
        ));
        assert(kind(tables[at.0][at.1]));
    }
}

/// A key that is found does not reappear, for the level does not have it as deleted, where the
/// levels before it are empty.
pub proof fn lemma_found_stays(
    dir: Seq<char>,
    files: Files,
    c: CompactionView,
    level: nat,
    key: Seq<char>,
)
    requires
        soundness::are_sound_tables(dir, files, c.levels),
        level <= c.level < c.levels.len(),
        forall|i: int| level <= i < c.level ==> (#[trigger] c.levels[i]).len() == 0,
        levels_answer(dir, files, c.levels, level, key) matches Ok(answer) && answer is Ok,
    ensures
        !reappears(dir, files, c, key),
    decreases c.level - level,
{
    lemma_levels_answer(dir, files, c.levels, level, key);
    if level < c.level {
        assert(c.levels[level as int].len() == 0);
        assert(level_tables(dir, files, level, c.levels[level as int]) =~= Seq::empty());
        lemma_found_stays(dir, files, c, level + 1, key);
    }
}

/// What a merge keeps is of a kind if all pairs of the tables of the level are.
pub proof fn lemma_merged_pairs(
    dir: Seq<char>,
    files: Files,
    c: CompactionView,
    kind: spec_fn(Pair) -> bool,
)
    requires
        soundness::are_sound_tables(dir, files, c.levels),
        c.level < c.levels.len(),
        soundness::tables_hold_only(dir, files, c.levels, kind),
    ensures
        soundness::holds_only(merge::merge_output(inputs_in(dir, files, c)), kind),
{
    let tables = inputs_in(dir, files, c);
    let ls = c.levels[c.level as int];
    let s = merge::merge_output(tables);
    lemma_inputs(dir, files, c);
    lemma_merge_output(tables, Seq::empty());
    assert forall|i: int| 0 <= i < s.len() implies kind(#[trigger] s[i]) by {
        let key = s[i].0;
        sorted::lemma_sorted_at(s, i);
        lemma_merge_output(tables, key);
        let at = lemma_newest_from(tables, key);
        let l = c.levels[c.level as int][ls.len() - 1 - at.0];
        assert(soundness::holds_only(
            soundness::pairs_in(files[disk::table_path(dir, c.level, l.sst_name)]),
            kind,
        ));
        assert(kind(tables[at.0][at.1]));
    }
}

/// A merge brings no pairs into the tables that were not in one of them.
pub proof fn law_compact_pairs(
    store: StoreView,
    files: Files,
    c: CompactionView,
    s: Seq<Pair>,
    kind: spec_fn(Pair) -> bool,
)
    requires
        is_mergeable(store, files, c, s),
        s == merge::merge_output(inputs_in(store.data_dir, files, c)),
        can_compact(store, c, s),
        soundness::tables_hold_only(store.data_dir, files, c.levels, kind),
    ensures
        soundness::tables_hold_only(
            store.data_dir,
            disk::run(files, compacting(store, c, s)),
            compaction::compacted_levels(c, store.next_ids, s),
            kind,
        ),
{
    let dir = store.data_dir;
    let after = disk::run(files, compacting(store, c, s));
    let size = TABLE_CAPACITY as nat;
    let cs = compaction::chunks(s, size);
    let first = compaction::next_id(c, store.next_ids);
    let next = c.level as int + 1;
    let lv = compaction::compacted_levels(c, store.next_ids, s);
    let added = compaction::chunk_lines(cs, first);
    let there = next_tables(c);
    lemma_inputs(dir, files, c);
    lemma_merge_output(inputs_in(dir, files, c), Seq::empty());
    lemma_compact_tables(store, files, c, s);
    lemma_run_compact(store, files, c, s);
    lemma_merged_pairs(dir, files, c, kind);
    assert(lv[next] =~= there + added);
    assert forall|i: int, j: int|
        0 <= i < lv.len() && 0 <= j < lv[i].len() implies soundness::holds_only(
        soundness::pairs_in(
            after[disk::table_path(dir, i as nat, (#[trigger] lv[i][j]).sst_name)],
        ),
        kind,
    ) by {
        if i != next || j < there.len() {
            assert(lv[i][j] == c.levels[i][j]);
            assert(soundness::is_same_file(
                files,
                after,
                disk::table_path(dir, i as nat, c.levels[i][j].sst_name),
            ));
        } else {
            let k = j - there.len();
            let chunk = cs[k];
            assert(manifest::is_plain(cs[k][0].0));
            lemma_added(s, size, first, k);
            assert(lv[i][j] == added[k]);
            let path = chunk_path(dir, next as nat, first, k);
            assert(path == disk::table_path(dir, next as nat, lv[i][j].sst_name));
            assert(after[path] == table::table_text(chunk));
            assert forall|n: int| 0 <= n < chunk.len() implies kind(#[trigger] chunk[n]) by {
                let m = lemma_chunk_within(s, size, k, n);
                assert(kind(s[m]));
            }
        }
    }
}

/// The tables of every level stay numbered in a merge.
pub proof fn law_compact_numbers(store: StoreView, c: CompactionView, s: Seq<Pair>)
    requires
        c.due(),
        soundness::are_numbered(store.next_ids, c.levels),
        compaction::next_id(c, store.next_ids) + compaction::chunks(s, TABLE_CAPACITY as nat).len()
            <= usize::MAX,
    ensures
        soundness::are_numbered(
            compacted(store, c, s).next_ids,
            compaction::compacted_levels(c, store.next_ids, s),
        ),
{
    let lv = compaction::compacted_levels(c, store.next_ids, s);
    let ids = compacted(store, c, s).next_ids;
    let cs = compaction::chunks(s, TABLE_CAPACITY as nat);
    let first = compaction::next_id(c, store.next_ids);
    let next = c.level as int + 1;
    let there = next_tables(c);
    assert(lv[next] =~= there + compaction::chunk_lines(cs, first));
    assert forall|i: int| 0 <= i < lv.len() implies soundness::is_numbered(
        #[trigger] lv[i],
        ids[i] as nat,
    ) by {
        if i == next {
            if next < c.levels.len() {
                assert(soundness::is_numbered(c.levels[next], store.next_ids[next] as nat));
            }
            lemma_numbered_more(there, cs, first);
        } else if i != c.level {
            assert(soundness::is_numbered(c.levels[i], store.next_ids[i] as nat));
        }
    }
}

/// The texts of the tables of the level give what the tables hold.
pub proof fn lemma_inputs(dir: Seq<char>, files: Files, c: CompactionView)
    requires
        soundness::are_sound_tables(dir, files, c.levels),
        c.level < c.levels.len(),
    ensures
        compaction::texts_pairs(input_texts(dir, files, c)) == Ok::<
            Seq<Seq<Pair>>,
            StoreError,
        >(inputs_in(dir, files, c)),
        forall|j: int|
            0 <= j < inputs_in(dir, files, c).len() ==> sorted::is_sorted(
                #[trigger] inputs_in(dir, files, c)[j],
            ),
{
    let ls = c.levels[c.level as int];
    let contents = input_texts(dir, files, c);
    let tables = inputs_in(dir, files, c);
    assert forall|j: int| 0 <= j < ls.len() implies table::table_pairs(
        #[trigger] contents[j],
    ) is Ok && sorted::is_sorted(tables[j]) by {
        let l = c.levels[c.level as int][ls.len() - 1 - j];
        assert(soundness::is_sound_table(dir, files, c.level, l));
    }
    assert forall|j: int| 0 <= j < tables.len() implies sorted::is_sorted(#[trigger] tables[j]) by {
        assert(table::table_pairs(contents[j]) is Ok);
    }
    lemma_texts_pairs(contents);
    assert(contents.map_values(|content: Seq<char>| soundness::pairs_in(content)) =~= tables);
}

/// The effects that write the merged tables touch no other file.
proof fn lemma_chunk_effects(
    dir: Seq<char>,
    level: nat,
    cs: Seq<Seq<Pair>>,
    first: nat,
    i: int,
    q: Seq<char>,
)
    requires
        0 <= i < compaction::chunk_effects(dir, level, cs, first).len(),
        forall|j: int| 0 <= j < cs.len() ==> #[trigger] chunk_path(dir, level, first, j) != q,
    ensures
        !disk::touches(compaction::chunk_effects(dir, level, cs, first)[i], q),
    decreases cs.len(),
{
    let front = cs.drop_last();
    let before = compaction::chunk_effects(dir, level, front, first);
    if i < before.len() {
        lemma_chunk_effects(dir, level, front, first, i, q);
        assert(compaction::chunk_effects(dir, level, cs, first)[i] == before[i]);
    } else {
        assert(chunk_path(dir, level, first, cs.len() - 1) != q);
    }
}

/// How many effects of a merge come before the first table is removed.
pub open spec fn writes_of(store: StoreView, c: CompactionView, s: Seq<Pair>) -> int {
    let all = compacting(store, c, s).len();
    all - c.levels[c.level as int].len() - storage::manifest_effects(
        store.data_dir,
        compaction::compacted_levels(c, store.next_ids, s),
    ).len()
}

proof fn lemma_untouched(
    store: StoreView,
    files: Files,
    c: CompactionView,
    s: Seq<Pair>,
    n: int,
    q: Seq<char>,
)
    requires
        0 <= n <= writes_of(store, c, s),
        forall|j: int|
            0 <= j < compaction::chunks(s, TABLE_CAPACITY as nat).len() ==> #[trigger] chunk_path(
                store.data_dir,
                c.level + 1,
                compaction::next_id(c, store.next_ids),
                j,
            ) != q,
    ensures
        soundness::is_same_file(
            files,
            disk::run(files, compacting(store, c, s).take(n)),
            q,
        ),
{
    let dir = store.data_dir;
    let cs = compaction::chunks(s, TABLE_CAPACITY as nat);
    let first = compaction::next_id(c, store.next_ids);
    let part = compacting(store, c, s).take(n);
    let written = compaction::chunk_effects(dir, c.level + 1, cs, first);
    let k: int = if compaction::opens_level(c, store.next_ids) {
        1
    } else {
        0
    };
    assert forall|i: int| 0 <= i < part.len() implies !disk::touches(#[trigger] part[i], q) by {
        if i >= k {
            assert(part[i] == written[i - k]);
            lemma_chunk_effects(dir, c.level + 1, cs, first, i - k, q);
        }
    }
    disk::lemma_run_untouched(files, part, q);
}

/// A merge may be cut short before it removes the first table, or once it has replaced the
/// manifest: a store opened on the files that are then there answers every read as before, or as
/// after the merge.
pub proof fn law_compact_cut_short(
    store: StoreView,
    files: Files,
    c: CompactionView,
    s: Seq<Pair>,
    n: int,
)
    requires
        soundness::is_sound(store, files, c.levels),
        is_mergeable(store, files, c, s),
        s == merge::merge_output(inputs_in(store.data_dir, files, c)),
        can_compact(store, c, s),
        0 <= n <= compacting(store, c, s).len(),
        n <= writes_of(store, c, s) || n >= compacting(store, c, s).len() - 1,
    ensures
        ({
            let left = disk::run(files, compacting(store, c, s).take(n));
            let again = soundness::reopened(store.data_dir, left);
            &&& again is Ok
            &&& n <= writes_of(store, c, s) ==> soundness::answers_as(
                again->Ok_0,
                left,
                store,
                files,
            )
            &&& n >= compacting(store, c, s).len() - 1 ==> forall|key: Seq<char>|
                !reappears(store.data_dir, files, c, key)
                    ==> #[trigger] again->Ok_0.answer(left, key) == store.answer(files, key)
        }),
{
    let dir = store.data_dir;
    let effects = compacting(store, c, s);
    let left = disk::run(files, effects.take(n));
    let cs = compaction::chunks(s, TABLE_CAPACITY as nat);
    let first = compaction::next_id(c, store.next_ids);
    let next = c.level + 1;
    let again = soundness::reopened(dir, left);
    if n <= writes_of(store, c, s) {
        assert forall|j: int| 0 <= j < cs.len() implies {
            &&& #[trigger] chunk_path(dir, next, first, j) != disk::manifest_path(dir)
            &&& chunk_path(dir, next, first, j) != disk::wal_path(dir)
        } by {
            disk::lemma_paths_differ(dir, next, manifest::table_name((first + j) as nat));
        }
        lemma_untouched(store, files, c, s, n, disk::manifest_path(dir));
        lemma_untouched(store, files, c, s, n, disk::wal_path(dir));
        assert forall|i: int, j: int|
            0 <= i < c.levels.len() && 0 <= j < c.levels[i].len() implies {
            &&& soundness::is_sound_table(dir, left, i as nat, #[trigger] c.levels[i][j])
            &&& soundness::is_same_file(
                files,
                left,
                disk::table_path(dir, i as nat, c.levels[i][j].sst_name),
            )
        } by {
            let q = disk::table_path(dir, i as nat, c.levels[i][j].sst_name);
            assert forall|k: int| 0 <= k < cs.len() implies #[trigger] chunk_path(
                dir,
                next,
                first,
                k,
            ) != q by {
                let id = (first + k) as nat;
                soundness::lemma_fresh(dir, c.levels, next, first, cs.len(), id, i, j);
            }
            lemma_untouched(store, files, c, s, n, q);
            assert(soundness::is_sound_table(dir, files, i as nat, c.levels[i][j]));
        }
        soundness::law_reopen(store, left, c.levels);
        assert forall|key: Seq<char>| #[trigger]
            again->Ok_0.answer(left, key) == store.answer(files, key) by {
            assert(again->Ok_0.answer(left, key) == store.answer(left, key));
            manifest::law_manifest_round_trip(c.levels);
            soundness::lemma_same_disk(dir, files, left, c.levels, key);
        }
    } else {
        let whole = disk::run(files, effects);
        assert(effects.take(effects.len() as int) =~= effects);
        assert(effects.drop_last() =~= effects.take(effects.len() - 1));
        assert(left == whole);
        law_compact_keeps(store, files, c, s);
        law_compact_sound(store, files, c, s);
        let after = compacted(store, c, s);
        soundness::law_reopen(after, whole, compaction::compacted_levels(c, store.next_ids, s));
        assert forall|key: Seq<char>|
            !reappears(dir, files, c, key) implies #[trigger] again->Ok_0.answer(left, key)
            == store.answer(files, key) by {
            assert(again->Ok_0.answer(left, key) == after.answer(whole, key));
        }
    }
}

} // verus!
