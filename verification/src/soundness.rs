//! What it is for the files to be those of the store, and that writing to the log and opening the
//! store again keep it.

use crate::disk;
use crate::disk::{EffectView, Files};
use crate::error::StoreError;
use crate::manifest;
use crate::manifest::LineView;
use crate::search;
use crate::search::Answer;
use crate::sorted;
use crate::sorted::{InfoView, Pair};
use crate::storage;
use crate::storage::StoreView;
use crate::table;
use crate::text;
use crate::wal;
use vstd::prelude::*;

verus! {

/// What the text of a table holds.
pub open spec fn pairs_in(content: Seq<char>) -> Seq<Pair> {
    table::table_pairs(content)->Ok_0
}

/// Whether a table is there, every line of it can be read, its keys ascend, and on a level above
/// 0 lie in the range that the manifest gives for them.
pub open spec fn is_sound_table(dir: Seq<char>, files: Files, level: nat, l: LineView) -> bool {
    let path = disk::table_path(dir, level, l.sst_name);
    &&& files.contains_key(path)
    &&& table::table_pairs(files[path]) is Ok
    &&& sorted::is_sorted(pairs_in(files[path]))
    &&& level > 0 ==> forall|i: int|
        0 <= i < pairs_in(files[path]).len() ==> search::in_range(
            l,
            (#[trigger] pairs_in(files[path])[i]).0,
        )
}

/// Whether all tables are sound.
pub open spec fn are_sound_tables(
    dir: Seq<char>,
    files: Files,
    levels: Seq<Seq<LineView>>,
) -> bool {
    forall|i: int, j: int|
        0 <= i < levels.len() && 0 <= j < levels[i].len() ==> is_sound_table(
            dir,
            files,
            i as nat,
            #[trigger] levels[i][j],
        )
}

/// Whether all pairs of a table are of a kind.
pub open spec fn holds_only(s: Seq<Pair>, kind: spec_fn(Pair) -> bool) -> bool {
    forall|k: int| 0 <= k < s.len() ==> kind(#[trigger] s[k])
}

/// Whether all pairs of all tables are of a kind.
pub open spec fn tables_hold_only(
    dir: Seq<char>,
    files: Files,
    levels: Seq<Seq<LineView>>,
    kind: spec_fn(Pair) -> bool,
) -> bool {
    forall|i: int, j: int|
        0 <= i < levels.len() && 0 <= j < levels[i].len() ==> holds_only(
            pairs_in(
                files[disk::table_path(dir, i as nat, (#[trigger] levels[i][j]).sst_name)],
            ),
            kind,
        )
}

/// Whether the tables of a level bear ascending numbers, all below the next.
pub open spec fn is_numbered(ls: Seq<LineView>, next: nat) -> bool {
    &&& forall|j: int|
        0 <= j < ls.len() ==> {
            let name = (#[trigger] ls[j]).sst_name;
            &&& name == manifest::table_name(manifest::number_in(name))
            &&& manifest::number_in(name) < next
        }
    &&& forall|i: int, j: int|
        0 <= i < j < ls.len() ==> manifest::number_in((#[trigger] ls[i]).sst_name)
            < manifest::number_in((#[trigger] ls[j]).sst_name)
}

/// Whether none of the tables of a level bears one of these numbers, `count` of them from `first`
/// on.
pub open spec fn is_free(ls: Seq<LineView>, first: nat, count: nat) -> bool {
    forall|j: int, id: nat|
        0 <= j < ls.len() && first <= id < first + count ==> (#[trigger] ls[j]).sst_name
            != #[trigger] manifest::table_name(id)
}

/// Whether on every level the tables bear ascending numbers below the next.
pub open spec fn are_numbered(next_ids: Seq<usize>, levels: Seq<Seq<LineView>>) -> bool {
    &&& next_ids.len() == levels.len()
    &&& forall|i: int|
        0 <= i < levels.len() ==> is_numbered(#[trigger] levels[i], next_ids[i] as nat)
}

/// Where the tables of a level are numbered, no table bears the next number or a later one.
pub proof fn law_numbered_free(ls: Seq<LineView>, next: nat, count: nat)
    requires
        is_numbered(ls, next),
    ensures
        is_free(ls, next, count),
{
    assert forall|j: int, id: nat|
        0 <= j < ls.len() && next <= id < next + count implies (#[trigger] ls[j]).sst_name
        != #[trigger] manifest::table_name(id) by {
        manifest::lemma_number_in(id);
    }
}

/// Whether the log is there, ends with a whole line, and leaves what the table in memory holds.
pub open spec fn is_logged(store: StoreView, files: Files) -> bool {
    let path = disk::wal_path(store.data_dir);
    &&& files.contains_key(path)
    &&& text::is_ended(files[path])
    &&& wal::log_map(files[path]) == Ok::<Map<Seq<char>, InfoView>, StoreError>(store.memtable)
}

/// Whether the manifest is there and lists these levels, in a form that can be read back, and the
/// tables are sound.
pub open spec fn is_catalog(dir: Seq<char>, files: Files, levels: Seq<Seq<LineView>>) -> bool {
    let path = disk::manifest_path(dir);
    &&& files.contains_key(path)
    &&& manifest::manifest_levels(files[path]) == Ok::<Seq<Seq<LineView>>, StoreError>(levels)
    &&& manifest::is_writable(levels)
    &&& are_sound_tables(dir, files, levels)
}

/// Whether the files are those of the store: the manifest is the one that is written for these
/// levels and can be read back, the tables are sound, those of level 0 have names that the store
/// gave them, and the log leaves what is in memory.
pub open spec fn is_sound(store: StoreView, files: Files, levels: Seq<Seq<LineView>>) -> bool {
    let path = disk::manifest_path(store.data_dir);
    &&& files.contains_key(path)
    &&& files[path] == manifest::manifest_text(levels)
    &&& manifest::is_writable(levels)
    &&& levels.len() > 0
    &&& manifest::is_named(levels[0])
    &&& store.next_ids.len() == levels.len()
    &&& are_sound_tables(store.data_dir, files, levels)
    &&& is_logged(store, files)
}

/// The manifest of a sound store lists its levels.
pub proof fn lemma_catalog(store: StoreView, files: Files, levels: Seq<Seq<LineView>>)
    requires
        is_sound(store, files, levels),
    ensures
        is_catalog(store.data_dir, files, levels),
{
    manifest::law_manifest_round_trip(levels);
}

/// Whether a store on some files answers every read as another does on others.
pub open spec fn answers_as(
    after: StoreView,
    files_after: Files,
    store: StoreView,
    files: Files,
) -> bool {
    forall|key: Seq<char>| #[trigger]
        after.answer(files_after, key) == store.answer(files, key)
}

/// Whether two states of the files have the same listed tables.
pub open spec fn are_same_tables(
    dir: Seq<char>,
    f: Files,
    g: Files,
    levels: Seq<Seq<LineView>>,
) -> bool {
    forall|i: int, j: int|
        0 <= i < levels.len() && 0 <= j < levels[i].len() ==> is_same_file(
            f,
            g,
            disk::table_path(dir, i as nat, (#[trigger] levels[i][j]).sst_name),
        )
}

/// Whether two states of the files have the same file at this path.
pub open spec fn is_same_file(f: Files, g: Files, path: Seq<char>) -> bool {
    f.contains_key(path) == g.contains_key(path) && f[path] == g[path]
}

pub proof fn lemma_same_answer(f: Files, g: Files, paths: Seq<Seq<char>>, key: Seq<char>)
    requires
        forall|j: int| 0 <= j < paths.len() ==> f[#[trigger] paths[j]] == g[paths[j]],
    ensures
        search::tables_answer(f, paths, key) == search::tables_answer(g, paths, key),
    decreases paths.len(),
{
    if paths.len() > 0 {
        let rest = paths.drop_first();
        assert(f[paths[0]] == g[paths[0]]);
        assert forall|j: int| 0 <= j < rest.len() implies f[#[trigger] rest[j]] == g[rest[j]] by {
            assert(rest[j] == paths[j + 1]);
        }
        lemma_same_answer(f, g, rest, key);
    }
}

proof fn lemma_same_level_candidates(
    dir: Seq<char>,
    f: Files,
    g: Files,
    level: nat,
    ls: Seq<LineView>,
    key: Seq<char>,
)
    requires
        forall|j: int|
            0 <= j < ls.len() ==> is_same_file(
                f,
                g,
                disk::table_path(dir, level, (#[trigger] ls[j]).sst_name),
            ),
    ensures
        ({
            let paths = search::level_candidates(dir, level, ls, key);
            forall|j: int| 0 <= j < paths.len() ==> f[#[trigger] paths[j]] == g[paths[j]]
        }),
    decreases ls.len(),
{
    if ls.len() > 0 {
        let older = ls.drop_last();
        assert forall|j: int| 0 <= j < older.len() implies is_same_file(
            f,
            g,
            disk::table_path(dir, level, (#[trigger] older[j]).sst_name),
        ) by {
            assert(older[j] == ls[j]);
        }
        lemma_same_level_candidates(dir, f, g, level, older, key);
        assert(is_same_file(
            f,
            g,
            disk::table_path(dir, level, ls[ls.len() - 1].sst_name),
        ));
        let rest = search::level_candidates(dir, level, older, key);
        let paths = search::level_candidates(dir, level, ls, key);
        assert forall|j: int| 0 <= j < paths.len() implies f[#[trigger] paths[j]] == g[paths[j]] by {
            if level == 0 || search::in_range(ls.last(), key) {
                if j > 0 {
                    assert(paths[j] == rest[j - 1]);
                }
            } else {
                assert(paths[j] == rest[j]);
            }
        }
    }
}

pub proof fn lemma_same_candidates(
    dir: Seq<char>,
    f: Files,
    g: Files,
    levels: Seq<Seq<LineView>>,
    level: nat,
    key: Seq<char>,
)
    requires
        forall|i: int, j: int|
            level <= i < levels.len() && 0 <= j < levels[i].len() ==> is_same_file(
                f,
                g,
                disk::table_path(dir, i as nat, (#[trigger] levels[i][j]).sst_name),
            ),
    ensures
        ({
            let paths = search::candidates(dir, levels, level, key);
            forall|j: int| 0 <= j < paths.len() ==> f[#[trigger] paths[j]] == g[paths[j]]
        }),
    decreases levels.len() - level,
{
    if level < levels.len() {
        let ls = levels[level as int];
        assert forall|j: int| 0 <= j < ls.len() implies is_same_file(
            f,
            g,
            disk::table_path(dir, level, (#[trigger] ls[j]).sst_name),
        ) by {
            assert(ls[j] == levels[level as int][j]);
        }
        lemma_same_level_candidates(dir, f, g, level, ls, key);
        lemma_same_candidates(dir, f, g, levels, level + 1, key);
        let here = search::level_candidates(dir, level, ls, key);
        let deeper = search::candidates(dir, levels, level + 1, key);
        let paths = search::candidates(dir, levels, level, key);
        assert forall|j: int| 0 <= j < paths.len() implies f[#[trigger] paths[j]] == g[paths[j]] by {
            if j < here.len() {
                assert(paths[j] == here[j]);
            } else {
                assert(paths[j] == deeper[j - here.len()]);
            }
        }
    }
}

/// Where the manifest and the listed tables are the same, so is what looking into them gives.
pub proof fn lemma_same_disk(
    dir: Seq<char>,
    f: Files,
    g: Files,
    levels: Seq<Seq<LineView>>,
    key: Seq<char>,
)
    requires
        are_same_tables(dir, f, g, levels),
    ensures
        search::tables_answer(f, search::candidates(dir, levels, 0, key), key)
            == search::tables_answer(g, search::candidates(dir, levels, 0, key), key),
{
    lemma_same_candidates(dir, f, g, levels, 0, key);
    lemma_same_answer(f, g, search::candidates(dir, levels, 0, key), key);
}

/// To log a line changes the log and no other file.
proof fn lemma_log_effects(dir: Seq<char>, files: Files, line: Seq<char>)
    ensures
        storage::log_effects(dir, line).len() == 1,
        disk::run(files, storage::log_effects(dir, line)) == files.insert(
            disk::wal_path(dir),
            files[disk::wal_path(dir)] + line.push('\n'),
        ),
{
    disk::lemma_run_one(files, storage::log_effects(dir, line)[0]);
    assert(storage::log_effects(dir, line) =~= seq![storage::log_effects(dir, line)[0]]);
}

/// What is logged does not change what looking into the files gives.
proof fn lemma_log_disk(dir: Seq<char>, files: Files, line: Seq<char>, key: Seq<char>)
    ensures
        search::disk_answer(dir, disk::run(files, storage::log_effects(dir, line)), key)
            == search::disk_answer(dir, files, key),
{
    let after = disk::run(files, storage::log_effects(dir, line));
    lemma_log_effects(dir, files, line);
    disk::lemma_paths_differ(dir, 0, Seq::empty());
    match manifest::manifest_levels(files[disk::manifest_path(dir)]) {
        Ok(levels) => {
            assert(are_same_tables(dir, files, after, levels)) by {
                assert forall|i: int, j: int|
                    0 <= i < levels.len() && 0 <= j < levels[i].len() implies is_same_file(
                    files,
                    after,
                    disk::table_path(dir, i as nat, (#[trigger] levels[i][j]).sst_name),
                ) by {
                    disk::lemma_paths_differ(dir, i as nat, levels[i][j].sst_name);
                }
            }
            lemma_same_disk(dir, files, after, levels, key);
        },
        Err(e) => {},
    }
}

/// A read of a key gives back the value that was last put there, whatever the store held before.
/// What other keys stand for stays as it was.
pub proof fn law_put_get(
    store: StoreView,
    files: Files,
    key: Seq<char>,
    value: Seq<char>,
    other: Seq<char>,
)
    ensures
        ({
            let after = store.set(wal::put_pair(key, value));
            let effects = storage::log_effects(store.data_dir, wal::put_line(key, value));
            let files_after = disk::run(files, effects);
            &&& after.answer(files_after, key) == Ok::<Answer, StoreError>(Ok(value))
            &&& other != key ==> after.answer(files_after, other) == store.answer(files, other)
        }),
{
    lemma_log_disk(store.data_dir, files, wal::put_line(key, value), other);
}

/// A read of a deleted key gives back that it is not found, whatever the store held before. What
/// other keys stand for stays as it was.
pub proof fn law_delete_get(store: StoreView, files: Files, key: Seq<char>, other: Seq<char>)
    ensures
        ({
            let after = store.set(wal::delete_pair(key));
            let effects = storage::log_effects(store.data_dir, wal::delete_line(key));
            let files_after = disk::run(files, effects);
            &&& after.answer(files_after, key) == Ok::<Answer, StoreError>(
                Err(search::not_found(key)),
            )
            &&& other != key ==> after.answer(files_after, other) == store.answer(files, other)
        }),
{
    lemma_log_disk(store.data_dir, files, wal::delete_line(key), other);
}

/// What is put or deleted is in the log as soon as it is in memory, so that nothing is lost when
/// the store stops, and the files stay those of the store.
pub proof fn law_log_keeps(
    store: StoreView,
    files: Files,
    levels: Seq<Seq<LineView>>,
    line: Seq<char>,
    p: Pair,
)
    requires
        is_sound(store, files, levels),
        wal::logs(line, p),
    ensures
        is_sound(
            store.set(p),
            disk::run(files, storage::log_effects(store.data_dir, line)),
            levels,
        ),
{
    let dir = store.data_dir;
    let after = disk::run(files, storage::log_effects(dir, line));
    let log = files[disk::wal_path(dir)];
    lemma_log_effects(dir, files, line);
    disk::lemma_paths_differ(dir, 0, Seq::empty());
    text::lemma_lines_push(log, line);
    let ls = text::lines(log);
    assert(ls.push(line).drop_last() =~= ls);
    let s = wal::log_pairs(ls)->Ok_0;
    assert(s.push(p).drop_last() =~= s);
    assert(are_sound_tables(dir, after, levels)) by {
        assert forall|i: int, j: int|
            0 <= i < levels.len() && 0 <= j < levels[i].len() implies is_sound_table(
            dir,
            after,
            i as nat,
            #[trigger] levels[i][j],
        ) by {
            disk::lemma_paths_differ(dir, i as nat, levels[i][j].sst_name);
            assert(is_sound_table(dir, files, i as nat, levels[i][j]));
        }
    }
}

/// The store that is opened on files that are there.
pub open spec fn reopened(dir: Seq<char>, files: Files) -> Result<StoreView, StoreError> {
    match storage::opened_ids(Some(files[disk::manifest_path(dir)])) {
        Err(e) => Err(e),
        Ok(next_ids) => match wal::log_map(files[disk::wal_path(dir)]) {
            Err(e) => Err(e),
            Ok(memtable) => Ok(StoreView { memtable, next_ids, data_dir: dir }),
        },
    }
}

/// The level of the manifest of a store without tables.
pub open spec fn first_levels() -> Seq<Seq<LineView>> {
    seq![Seq::empty()]
}

/// The store that is opened where there is none.
pub open spec fn first_store(dir: Seq<char>) -> StoreView {
    StoreView { memtable: Map::empty(), next_ids: seq![0usize], data_dir: dir }
}

/// What is done to the files when a store is opened where there is none.
pub open spec fn first_effects(dir: Seq<char>) -> Seq<EffectView> {
    storage::open_effects(dir, true, 1).push(
        EffectView::CreateFile { path: disk::wal_path(dir), content: Seq::empty() },
    )
}

proof fn lemma_first_manifest()
    ensures
        storage::first_manifest() == manifest::manifest_text(first_levels()),
        manifest::is_writable(first_levels()),
{
    reveal_strlit("[L0]\n");
    reveal_strlit("[L");
    reveal_strlit("]");
    let levels = first_levels();
    assert(levels.drop_last() =~= Seq::empty());
    assert(levels.last().map_values(|l: LineView| manifest::table_line(0, l)) =~= Seq::empty());
    let h = manifest::header(0);
    assert(text::decimal(0) =~= seq!['0']);
    assert(h =~= seq!['[', 'L', '0', ']']);
    assert(manifest::manifest_lines(Seq::empty()) =~= Seq::empty());
    let ls = manifest::manifest_lines(levels);
    assert(ls =~= seq![h]);
    assert(ls.drop_last() =~= Seq::empty());
    assert(text::unlines(Seq::empty()) =~= Seq::empty());
    assert(manifest::manifest_text(levels) =~= storage::first_manifest());
}

/// A store that is opened where there is none has its files, and no key is found in it.
pub proof fn law_first_open(dir: Seq<char>, files: Files, key: Seq<char>)
    ensures
        is_sound(first_store(dir), disk::run(files, first_effects(dir)), first_levels()),
        first_store(dir).answer(disk::run(files, first_effects(dir)), key) == Ok::<
            Answer,
            StoreError,
        >(Err(search::not_found(key))),
{
    let effects = first_effects(dir);
    let make = EffectView::CreateFile {
        path: disk::manifest_path(dir),
        content: storage::first_manifest(),
    };
    let level = EffectView::CreateDir { path: disk::level_path(dir, 0) };
    let log = EffectView::CreateFile { path: disk::wal_path(dir), content: Seq::empty() };
    assert(effects =~= seq![make, level, level, log]);
    assert(effects.drop_last() =~= seq![make, level, level]);
    assert(effects.drop_last().drop_last() =~= seq![make, level]);
    assert(effects.drop_last().drop_last().drop_last() =~= seq![make]);
    disk::lemma_run_one(files, make);
    let after = disk::run(files, effects);
    let made = disk::apply(files, make);
    assert(disk::run(files, seq![make, level]) == made);
    assert(disk::run(files, seq![make, level, level]) == made);
    assert(after == disk::apply(made, log));
    disk::lemma_paths_differ(dir, 0, Seq::empty());
    lemma_first_manifest();
    manifest::law_manifest_round_trip(first_levels());
    text::lemma_split_one(Seq::empty(), '\n');
    assert(text::lines(Seq::empty()) =~= Seq::empty());
    let levels = first_levels();
    assert(search::candidates(dir, levels, 1, key) =~= Seq::empty());
    assert(search::candidates(dir, levels, 0, key) =~= Seq::empty());
}

/// Where there is no manifest, a store is opened with one level, whose tables start at 0. Where
/// there is one, it alone gives the numbers; where it is the one written for some levels, there is a
/// number for each of them: level 0 goes on after its last table, so that no listed table bears the
/// number, and numbers start at 0 on the others.
pub proof fn law_opened_numbers(levels: Seq<Seq<LineView>>, content: Seq<char>)
    requires
        manifest::is_writable(levels),
        levels.len() > 0,
        manifest::is_named(levels[0]),
    ensures
        storage::opened_ids(None) == Ok::<Seq<usize>, StoreError>(seq![0usize]),
        storage::opened_ids(Some(content)) == manifest::manifest_ids(content),
        storage::opened_ids(Some(manifest::manifest_text(levels))) is Ok,
        ({
            let ids = storage::opened_ids(Some(manifest::manifest_text(levels)))->Ok_0;
            &&& ids.len() == levels.len()
            &&& goes_on_after(levels[0], ids[0] as nat)
            &&& forall|i: int| 0 < i < ids.len() ==> #[trigger] ids[i] == 0
            &&& forall|next: nat| #[trigger]
                is_numbered(levels[0], next) ==> ids[0] <= next && is_numbered(
                    levels[0],
                    ids[0] as nat,
                ) && is_free(levels[0], ids[0] as nat, 1)
        }),
{
    manifest::law_ids_after_restart(levels);
    let ids = storage::opened_ids(Some(manifest::manifest_text(levels)))->Ok_0;
    let ls = levels[0];
    assert forall|next: nat| #[trigger] is_numbered(ls, next) implies ids[0] <= next
        && is_numbered(ls, ids[0] as nat) && is_free(ls, ids[0] as nat, 1) by {
        if ls.len() > 0 {
            manifest::lemma_number_in((ids[0] - 1) as nat);
            let last = ls[ls.len() - 1];
            assert(manifest::number_in(last.sst_name) == ids[0] - 1);
        }
        assert(is_numbered(ls, ids[0] as nat));
        law_numbered_free(ls, ids[0] as nat, 1);
    }
}

/// Whether this is the number after that of the last of these tables, or 0, if there is none.
pub open spec fn goes_on_after(ls: Seq<LineView>, next: nat) -> bool {
    if ls.len() == 0 {
        next == 0
    } else {
        next > 0 && ls.last().sst_name == manifest::table_name((next - 1) as nat)
    }
}

/// A store that is opened again holds what it held, answers every read as before, and its files
/// are its own and stay as they are. If the tables of level 0 were numbered, they are numbered
/// again; on the other levels numbers start at 0, so that they are numbered again if there are no
/// tables.
pub proof fn law_reopen(store: StoreView, files: Files, levels: Seq<Seq<LineView>>)
    requires
        is_sound(store, files, levels),
    ensures
        reopened(store.data_dir, files) is Ok,
        ({
            let again = reopened(store.data_dir, files)->Ok_0;
            &&& again.memtable == store.memtable
            &&& answers_as(again, files, store, files)
            &&& is_sound(again, files, levels)
            &&& goes_on_after(levels[0], again.next_ids[0] as nat)
            &&& is_numbered(levels[0], store.next_ids[0] as nat) ==> is_numbered(
                levels[0],
                again.next_ids[0] as nat,
            ) && is_free(levels[0], again.next_ids[0] as nat, 1)
            &&& forall|i: int|
                0 < i < levels.len() && levels[i].len() == 0 ==> is_numbered(
                    #[trigger] levels[i],
                    again.next_ids[i] as nat,
                )
            &&& disk::run(
                files,
                storage::open_effects(store.data_dir, false, again.next_ids.len()),
            ) == files
        }),
{
    manifest::law_ids_after_restart(levels);
    let again = reopened(store.data_dir, files)->Ok_0;
    let ls = levels[0];
    if is_numbered(ls, store.next_ids[0] as nat) {
        let next = again.next_ids[0] as nat;
        if ls.len() > 0 {
            manifest::lemma_number_in((next - 1) as nat);
            let last = ls[ls.len() - 1];
            assert forall|j: int| 0 <= j < ls.len() implies manifest::number_in(
                (#[trigger] ls[j]).sst_name,
            ) < next by {
                assert(manifest::number_in(last.sst_name) == next - 1);
            }
        }
        assert(is_numbered(ls, next));
        law_numbered_free(ls, next, 1);
    }
    lemma_open_effects(store.data_dir, files, again.next_ids.len());
}

/// Opening a store that is there changes no file.
proof fn lemma_open_effects(dir: Seq<char>, files: Files, n: nat)
    ensures
        disk::run(files, storage::open_effects(dir, false, n)) == files,
{
    let effects = storage::open_effects(dir, false, n);
    assert forall|i: int| 0 <= i < effects.len() implies effects[i] is CreateDir by {
        if i < n {
            assert(effects[i] == storage::dir_effects(dir, n)[i]);
        }
    }
    lemma_run_dirs(files, effects);
}

proof fn lemma_run_dirs(files: Files, effects: Seq<EffectView>)
    requires
        forall|i: int| 0 <= i < effects.len() ==> effects[i] is CreateDir,
    ensures
        disk::run(files, effects) == files,
    decreases effects.len(),
{
    if effects.len() > 0 {
        lemma_run_dirs(files, effects.drop_last());
        assert(effects[effects.len() - 1] is CreateDir);
    }
}

/// What is looked into from a level on depends on the levels from there on.
pub proof fn lemma_same_levels(
    dir: Seq<char>,
    a: Seq<Seq<LineView>>,
    b: Seq<Seq<LineView>>,
    level: nat,
    key: Seq<char>,
)
    requires
        a.len() == b.len(),
        forall|i: int| level <= i < a.len() ==> #[trigger] a[i] == b[i],
    ensures
        search::candidates(dir, a, level, key) == search::candidates(dir, b, level, key),
    decreases a.len() - level,
{
    if level < a.len() {
        lemma_same_levels(dir, a, b, level + 1, key);
    }
}

/// No listed table has the path of one with a free number.
pub proof fn lemma_fresh(
    dir: Seq<char>,
    levels: Seq<Seq<LineView>>,
    level: nat,
    first: nat,
    count: nat,
    id: nat,
    i: int,
    j: int,
)
    requires
        level < levels.len() ==> is_free(levels[level as int], first, count),
        first <= id < first + count,
        0 <= i < levels.len(),
        0 <= j < levels[i].len(),
    ensures
        disk::table_path(dir, i as nat, levels[i][j].sst_name) != disk::table_path(
            dir,
            level,
            manifest::table_name(id),
        ),
{
    let name = levels[i][j].sst_name;
    let fresh = manifest::table_name(id);
    if disk::table_path(dir, i as nat, name) == disk::table_path(dir, level, fresh) {
        disk::lemma_table_path_injective(dir, i as nat, name, level, fresh);
        assert(levels[i][j].sst_name != fresh);
    }
}

/// Whether the text of the table made of these pairs gives them back.
pub open spec fn is_table(s: Seq<Pair>) -> bool {
    table::table_pairs(table::table_text(s)) == Ok::<Seq<Pair>, StoreError>(s)
}

} // verus!
