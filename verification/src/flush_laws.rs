//! What writing out the table in memory keeps.

use crate::disk;
use crate::disk::{EffectView, Files};
use crate::error::StoreError;
use crate::manifest;
use crate::manifest::LineView;
use crate::search;
use crate::sorted;
use crate::sorted::Pair;
use crate::soundness;
use crate::storage;
use crate::storage::StoreView;
use crate::table;
use crate::text;
use crate::wal;
use vstd::prelude::*;

verus! {

/// What is in the log is finite, and so has a listing.
proof fn lemma_overlay_finite(s: Seq<Pair>)
    ensures
        wal::overlay(Map::empty(), s).dom().finite(),
    decreases s.len(),
{
    if s.len() > 0 {
        lemma_overlay_finite(s.drop_last());
    }
}

/// The table in memory of a store with its log has finitely many keys.
pub proof fn lemma_memtable_finite(store: StoreView, files: Files)
    requires
        soundness::is_logged(store, files),
    ensures
        store.memtable.dom().finite(),
{
    lemma_overlay_finite(
        wal::log_pairs(text::lines(files[disk::wal_path(store.data_dir)]))->Ok_0,
    );
}

/// The table in memory can be listed.
pub proof fn lemma_memtable_listing(store: StoreView, files: Files)
    requires
        soundness::is_logged(store, files),
    ensures
        sorted::is_sorted(sorted::listing(store.memtable)),
        sorted::first_wins(sorted::listing(store.memtable)) == store.memtable,
{
    lemma_memtable_finite(store, files);
    sorted::law_listing(store.memtable);
}

/// What is done to the files when the table in memory is written out.
pub open spec fn flushing(store: StoreView, levels: Seq<Seq<LineView>>) -> Seq<EffectView> {
    let id = store.next_ids[0] as nat;
    storage::flush_effects(
        store.data_dir,
        id,
        sorted::listing(store.memtable),
        storage::flushed_levels(levels, id),
    )
}

/// The store after the table in memory was written out, and before it is emptied.
pub open spec fn flushed(store: StoreView) -> StoreView {
    StoreView { next_ids: store.next_ids.update(0, (store.next_ids[0] + 1) as usize), ..store }
}

/// The files after the first `n` effects of a flush.
spec fn flush_files(store: StoreView, files: Files, levels: Seq<Seq<LineView>>, n: int) -> Files {
    let dir = store.data_dir;
    let id = store.next_ids[0] as nat;
    let path = disk::table_path(dir, 0, manifest::table_name(id));
    let listed = manifest::manifest_text(storage::flushed_levels(levels, id));
    let written = files.insert(path, table::table_text(sorted::listing(store.memtable)));
    let renamed = written.insert(disk::manifest_tmp_path(dir), listed).remove(
        disk::manifest_tmp_path(dir),
    ).insert(disk::manifest_path(dir), listed);
    if n <= 0 {
        files
    } else if n < 3 {
        written
    } else if n < 4 {
        written.insert(disk::manifest_tmp_path(dir), listed)
    } else if n < 6 {
        renamed
    } else {
        renamed.insert(disk::wal_path(dir), Seq::empty())
    }
}

proof fn lemma_flush_files(store: StoreView, files: Files, levels: Seq<Seq<LineView>>, n: int)
    requires
        0 <= n <= 6,
    ensures
        flushing(store, levels).len() == 6,
        disk::run(files, flushing(store, levels).take(n)) == flush_files(store, files, levels, n),
    decreases n,
{
    let effects = flushing(store, levels);
    if n > 0 {
        lemma_flush_files(store, files, levels, n - 1);
        assert(effects.take(n).drop_last() =~= effects.take(n - 1));
        assert(effects.take(n).last() == effects[n - 1]);
    } else {
        assert(effects.take(0) =~= Seq::empty());
    }
}

/// The store in memory that the files stand for after the first `n` effects of a flush.
spec fn flush_store(store: StoreView, n: int) -> StoreView {
    if n < 4 {
        store
    } else if n < 6 {
        flushed(store)
    } else {
        flushed(store).cleared()
    }
}

/// The levels that the manifest lists after the first `n` effects of a flush.
spec fn flush_levels(store: StoreView, levels: Seq<Seq<LineView>>, n: int) -> Seq<Seq<LineView>> {
    if n < 4 {
        levels
    } else {
        storage::flushed_levels(levels, store.next_ids[0] as nat)
    }
}

proof fn lemma_flush_sound(store: StoreView, files: Files, levels: Seq<Seq<LineView>>, n: int)
    requires
        soundness::is_sound(store, files, levels),
        store.next_ids[0] < usize::MAX,
        soundness::is_free(levels[0], store.next_ids[0] as nat, 1),
        soundness::is_table(sorted::listing(store.memtable)),
        0 <= n <= 6,
    ensures
        soundness::is_sound(
            flush_store(store, n),
            flush_files(store, files, levels, n),
            flush_levels(store, levels, n),
        ),
{
    let dir = store.data_dir;
    let id = store.next_ids[0] as nat;
    let name = manifest::table_name(id);
    let after = flush_files(store, files, levels, n);
    let lv = flush_levels(store, levels, n);
    disk::lemma_paths_differ(dir, 0, name);
    lemma_memtable_listing(store, files);
    manifest::lemma_table_name(id);
    manifest::lemma_number_in(id);
    assert forall|i: int, j: int|
        0 <= i < lv.len() && 0 <= j < lv[i].len() implies soundness::is_sound_table(
        dir,
        after,
        i as nat,
        #[trigger] lv[i][j],
    ) by {
        if j < levels[i].len() {
            assert(lv[i][j] == levels[i][j]);
            assert(soundness::is_sound_table(dir, files, i as nat, levels[i][j]));
            soundness::lemma_fresh(dir, levels, 0, id, 1, id, i, j);
            disk::lemma_paths_differ(dir, i as nat, levels[i][j].sst_name);
        } else {
            assert(i == 0 && lv[i][j] == manifest::unkeyed(name));
        }
    }
    assert forall|i: int, j: int|
        0 <= i < lv.len() && 0 <= j < lv[i].len() implies manifest::is_writable_line(
        i as nat,
        #[trigger] lv[i][j],
    ) by {
        if j < levels[i].len() {
            assert(lv[i][j] == levels[i][j]);
        }
    }
    assert(manifest::is_named(lv[0])) by {
        let ls = lv[0];
        assert forall|j: int| 0 <= j < ls.len() implies {
            let name = (#[trigger] ls[j]).sst_name;
            &&& name == manifest::table_name(manifest::number_in(name))
            &&& manifest::number_in(name) < usize::MAX
        } by {
            if j < levels[0].len() {
                assert(ls[j] == levels[0][j]);
            }
        }
    }
    if n == 6 {
        text::lemma_split_one(Seq::empty(), '\n');
        assert(text::lines(Seq::empty()) =~= Seq::empty());
    }
}

proof fn lemma_flush_answer(
    store: StoreView,
    files: Files,
    levels: Seq<Seq<LineView>>,
    n: int,
    key: Seq<char>,
)
    requires
        soundness::is_sound(store, files, levels),
        store.next_ids[0] < usize::MAX,
        soundness::is_free(levels[0], store.next_ids[0] as nat, 1),
        soundness::is_table(sorted::listing(store.memtable)),
        0 <= n <= 6,
    ensures
        flush_store(store, n).answer(flush_files(store, files, levels, n), key) == store.answer(
            files,
            key,
        ),
{
    let dir = store.data_dir;
    let id = store.next_ids[0] as nat;
    let name = manifest::table_name(id);
    let s = sorted::listing(store.memtable);
    let after = flush_files(store, files, levels, n);
    let lv = flush_levels(store, levels, n);
    let path = disk::table_path(dir, 0, name);
    disk::lemma_paths_differ(dir, 0, name);
    lemma_flush_sound(store, files, levels, n);
    lemma_memtable_listing(store, files);
    manifest::law_manifest_round_trip(levels);
    manifest::law_manifest_round_trip(lv);
    assert(soundness::are_same_tables(dir, files, after, levels)) by {
        assert forall|i: int, j: int|
            0 <= i < levels.len() && 0 <= j < levels[i].len() implies soundness::is_same_file(
            files,
            after,
            disk::table_path(dir, i as nat, (#[trigger] levels[i][j]).sst_name),
        ) by {
            soundness::lemma_fresh(dir, levels, 0, id, 1, id, i, j);
            disk::lemma_paths_differ(dir, i as nat, levels[i][j].sst_name);
        }
    }
    soundness::lemma_same_disk(dir, files, after, levels, key);
    if n >= 4 {
        let older = search::level_candidates(dir, 0, levels[0], key);
        let deeper = search::candidates(dir, levels, 1, key);
        soundness::lemma_same_levels(dir, lv, levels, 1, key);
        assert(lv[0].drop_last() =~= levels[0]);
        let paths = search::candidates(dir, lv, 0, key);
        assert(paths =~= (seq![path] + older) + deeper);
        assert(paths[0] == path);
        assert(paths.drop_first() =~= search::candidates(dir, levels, 0, key));
        table::lemma_search(text::lines(table::table_text(s)), s, key);
    }
}

/// Writing the table in memory out goes through wherever there is a number left for it, which no
/// table of level 0 has, and where the text of the table gives back what is in it. Every answer is
/// then as it was, whether the table in memory is emptied or not, and once it is, the files are
/// those of the store.
pub proof fn law_flush_keeps(store: StoreView, files: Files, levels: Seq<Seq<LineView>>)
    requires
        soundness::is_sound(store, files, levels),
        store.next_ids[0] < usize::MAX,
        soundness::is_free(levels[0], store.next_ids[0] as nat, 1),
        soundness::is_table(sorted::listing(store.memtable)),
    ensures
        storage::flush_check(store, files[disk::manifest_path(store.data_dir)]) == Ok::<
            Seq<Seq<LineView>>,
            StoreError,
        >(levels),
        ({
            let after = disk::run(files, flushing(store, levels));
            &&& soundness::is_sound(
                flushed(store).cleared(),
                after,
                storage::flushed_levels(levels, store.next_ids[0] as nat),
            )
            &&& soundness::answers_as(flushed(store), after, store, files)
            &&& soundness::answers_as(flushed(store).cleared(), after, store, files)
        }),
{
    let effects = flushing(store, levels);
    let after = disk::run(files, effects);
    manifest::law_manifest_round_trip(levels);
    lemma_flush_files(store, files, levels, 6);
    assert(effects.take(6) =~= effects);
    lemma_flush_sound(store, files, levels, 6);
    assert forall|key: Seq<char>| #[trigger]
        flushed(store).cleared().answer(after, key) == store.answer(files, key) by {
        lemma_flush_answer(store, files, levels, 6, key);
    }
    assert forall|key: Seq<char>| #[trigger]
        flushed(store).answer(after, key) == store.answer(files, key) by {
        lemma_flush_answer(store, files, levels, 6, key);
    }
}

/// A flush brings no pairs into the tables but those of the table in memory.
pub proof fn law_flush_pairs(
    store: StoreView,
    files: Files,
    levels: Seq<Seq<LineView>>,
    kind: spec_fn(Pair) -> bool,
)
    requires
        soundness::is_sound(store, files, levels),
        soundness::is_free(levels[0], store.next_ids[0] as nat, 1),
        soundness::is_table(sorted::listing(store.memtable)),
        soundness::tables_hold_only(store.data_dir, files, levels, kind),
        forall|key: Seq<char>| #[trigger]
            store.memtable.contains_key(key) ==> kind((key, store.memtable[key])),
    ensures
        soundness::tables_hold_only(
            store.data_dir,
            disk::run(files, flushing(store, levels)),
            storage::flushed_levels(levels, store.next_ids[0] as nat),
            kind,
        ),
{
    let dir = store.data_dir;
    let id = store.next_ids[0] as nat;
    let name = manifest::table_name(id);
    let effects = flushing(store, levels);
    let after = disk::run(files, effects);
    let lv = storage::flushed_levels(levels, id);
    let s = sorted::listing(store.memtable);
    lemma_flush_files(store, files, levels, 6);
    assert(effects.take(6) =~= effects);
    lemma_memtable_listing(store, files);
    disk::lemma_paths_differ(dir, 0, name);
    assert forall|i: int, j: int|
        0 <= i < lv.len() && 0 <= j < lv[i].len() implies soundness::holds_only(
        soundness::pairs_in(
            after[disk::table_path(dir, i as nat, (#[trigger] lv[i][j]).sst_name)],
        ),
        kind,
    ) by {
        if j < levels[i].len() {
            assert(lv[i][j] == levels[i][j]);
            soundness::lemma_fresh(dir, levels, 0, id, 1, id, i, j);
            disk::lemma_paths_differ(dir, i as nat, levels[i][j].sst_name);
        } else {
            assert(i == 0 && lv[i][j] == manifest::unkeyed(name));
            assert forall|k: int| 0 <= k < s.len() implies kind(#[trigger] s[k]) by {
                sorted::lemma_sorted_at(s, k);
                assert(store.memtable.contains_key(s[k].0));
            }
        }
    }
}

/// The tables of level 0 stay numbered when one is added, and those of the other levels do not
/// change.
pub proof fn law_flush_numbers(store: StoreView, levels: Seq<Seq<LineView>>)
    requires
        levels.len() > 0,
        store.next_ids.len() == levels.len(),
        store.next_ids[0] < usize::MAX,
        soundness::is_numbered(levels[0], store.next_ids[0] as nat),
    ensures
        ({
            let lv = storage::flushed_levels(levels, store.next_ids[0] as nat);
            let ids = flushed(store).next_ids;
            &&& soundness::is_numbered(lv[0], ids[0] as nat)
            &&& forall|i: int|
                0 < i < levels.len() ==> #[trigger] lv[i] == levels[i] && ids[i]
                    == store.next_ids[i]
            &&& soundness::are_numbered(store.next_ids, levels) ==> soundness::are_numbered(
                ids,
                lv,
            )
        }),
{
    let id = store.next_ids[0] as nat;
    let name = manifest::table_name(id);
    let lv = storage::flushed_levels(levels, id);
    let ids = flushed(store).next_ids;
    let ls = lv[0];
    manifest::lemma_number_in(id);
    assert(ls == levels[0].push(manifest::unkeyed(name)));
    assert forall|a: int, b: int| 0 <= a < b < ls.len() implies manifest::number_in(
        (#[trigger] ls[a]).sst_name,
    ) < manifest::number_in((#[trigger] ls[b]).sst_name) by {
        assert(ls[a] == levels[0][a]);
        if b < levels[0].len() {
            assert(ls[b] == levels[0][b]);
        }
    }
    assert forall|j: int| 0 <= j < ls.len() implies {
        let name = (#[trigger] ls[j]).sst_name;
        &&& name == manifest::table_name(manifest::number_in(name))
        &&& manifest::number_in(name) < id + 1
    } by {
        if j < levels[0].len() {
            assert(ls[j] == levels[0][j]);
        }
    }
    if soundness::are_numbered(store.next_ids, levels) {
        assert forall|i: int| 0 <= i < lv.len() implies soundness::is_numbered(
            #[trigger] lv[i],
            ids[i] as nat,
        ) by {
            assert(soundness::is_numbered(levels[i], store.next_ids[i] as nat));
        }
    }
}

/// Wherever the writing out of the table in memory is cut short, a store opened on the files that
/// are then there answers every read as before, where the text of the table gives back what is in
/// it.
pub proof fn law_flush_cut_short(
    store: StoreView,
    files: Files,
    levels: Seq<Seq<LineView>>,
    n: int,
)
    requires
        soundness::is_sound(store, files, levels),
        store.next_ids[0] < usize::MAX,
        soundness::is_free(levels[0], store.next_ids[0] as nat, 1),
        soundness::is_table(sorted::listing(store.memtable)),
        0 <= n <= flushing(store, levels).len(),
    ensures
        ({
            let left = disk::run(files, flushing(store, levels).take(n));
            let again = soundness::reopened(store.data_dir, left);
            &&& again is Ok
            &&& soundness::answers_as(again->Ok_0, left, store, files)
        }),
{
    let left = disk::run(files, flushing(store, levels).take(n));
    lemma_flush_files(store, files, levels, n);
    lemma_flush_sound(store, files, levels, n);
    soundness::law_reopen(flush_store(store, n), left, flush_levels(store, levels, n));
    let again = soundness::reopened(store.data_dir, left);
    assert forall|key: Seq<char>| #[trigger]
        again->Ok_0.answer(left, key) == store.answer(files, key) by {
        lemma_flush_answer(store, files, levels, n, key);
        assert(again->Ok_0.answer(left, key) == flush_store(store, n).answer(left, key));
    }
}

/// The manifest is replaced at once: wherever its replacement is cut short, the manifest is the
/// old one or the new one, and no file but it and its copy has changed.
pub proof fn law_manifest_at_once(
    dir: Seq<char>,
    files: Files,
    levels: Seq<Seq<LineView>>,
    n: int,
    path: Seq<char>,
)
    requires
        0 <= n <= storage::manifest_effects(dir, levels).len(),
    ensures
        ({
            let left = disk::run(files, storage::manifest_effects(dir, levels).take(n));
            &&& left[disk::manifest_path(dir)] == if n < 2 {
                files[disk::manifest_path(dir)]
            } else {
                manifest::manifest_text(levels)
            }
            &&& path != disk::manifest_path(dir) && path != disk::manifest_tmp_path(dir)
                ==> soundness::is_same_file(files, left, path)
        }),
    decreases n,
{
    let effects = storage::manifest_effects(dir, levels);
    disk::lemma_paths_differ(dir, 0, Seq::empty());
    if n > 0 {
        law_manifest_at_once(dir, files, levels, n - 1, path);
        assert(effects.take(n).drop_last() =~= effects.take(n - 1));
        assert(effects.take(n).last() == effects[n - 1]);
        if n == 2 {
            assert(effects.take(1).drop_last() =~= Seq::empty());
            assert(disk::run(files, Seq::empty()) == files);
            assert(disk::run(files, effects.take(1)) == disk::apply(files, effects[0]));
        }
    }
}

} // verus!
