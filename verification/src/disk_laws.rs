//! That what is asked to be done to the files can be done, and reaches the disk.

use crate::compact_laws;
use crate::compaction;
use crate::compaction::CompactionView;
use crate::disk;
use crate::disk::{EffectView, Files};
use crate::flush_laws;
use crate::manifest;
use crate::manifest::LineView;
use crate::sorted::Pair;
use crate::soundness;
use crate::storage;
use crate::storage::{StoreView, TABLE_CAPACITY};
use crate::text;
use vstd::prelude::*;

verus! {

/// The directory in which a file is listed: what stands before the last `/` of its path.
pub open spec fn parent(path: Seq<char>) -> Seq<char>
    decreases path.len(),
{
    if path.len() == 0 {
        path
    } else if path.last() == '/' {
        path.drop_last()
    } else {
        parent(path.drop_last())
    }
}

/// Whether there is a directory at this path after the first `n` effects.
pub open spec fn is_dir_at(
    dirs: Set<Seq<char>>,
    effects: Seq<EffectView>,
    n: int,
    path: Seq<char>,
) -> bool {
    dirs.contains(path) || exists|i: int|
        0 <= i < n && #[trigger] effects[i] == (EffectView::CreateDir { path })
}

/// Whether the directory that an effect needs is there after the first `n` effects.
pub open spec fn has_place(dirs: Set<Seq<char>>, effects: Seq<EffectView>, n: int) -> bool {
    match effects[n] {
        EffectView::CreateDir { path } => is_dir_at(dirs, effects, n, path) || is_dir_at(
            dirs,
            effects,
            n,
            parent(path),
        ),
        EffectView::CreateFile { path, content } => is_dir_at(dirs, effects, n, parent(path)),
        EffectView::WriteFile { path, content } => is_dir_at(dirs, effects, n, parent(path)),
        EffectView::SyncParent { path } => is_dir_at(dirs, effects, n, parent(path)),
        EffectView::Rename { from, to } => is_dir_at(dirs, effects, n, parent(to)),
        _ => true,
    }
}

/// Whether every file is written in a directory that is there by then.
pub open spec fn is_placed(dirs: Set<Seq<char>>, effects: Seq<EffectView>) -> bool {
    forall|n: int| 0 <= n < effects.len() ==> #[trigger] has_place(dirs, effects, n)
}

/// Whether the file that an effect needs is there.
pub open spec fn has_file(files: Files, e: EffectView) -> bool {
    match e {
        EffectView::Append { path, content } => files.contains_key(path),
        EffectView::Rename { from, to } => files.contains_key(from),
        EffectView::Remove { path } => files.contains_key(path),
        _ => true,
    }
}

/// Whether every file that is added to, renamed or removed is there by then.
pub open spec fn finds_files(files: Files, effects: Seq<EffectView>) -> bool {
    forall|n: int|
        0 <= n < effects.len() ==> has_file(
            disk::run(files, effects.take(n)),
            #[trigger] effects[n],
        )
}

/// Whether whatever is written reaches the disk before anything else is done: no file is written
/// without waiting for it, and the directory of a table and of the manifest is waited for at once.
pub open spec fn is_synced(dir: Seq<char>, effects: Seq<EffectView>) -> bool {
    forall|n: int|
        0 <= n < effects.len() ==> match #[trigger] effects[n] {
            EffectView::CreateFile { path, content } => false,
            EffectView::WriteFile { path, content } => path == disk::manifest_tmp_path(dir) || path
                == disk::wal_path(dir) || (n + 1 < effects.len() && effects[n + 1]
                == (EffectView::SyncParent { path })),
            EffectView::Rename { from, to } => n + 1 < effects.len() && effects[n + 1]
                == (EffectView::SyncParent { path: to }),
            _ => true,
        }
}

/// Whether the directory of the store and those of so many levels are there.
pub open spec fn has_dirs(dirs: Set<Seq<char>>, dir: Seq<char>, n: nat) -> bool {
    &&& dirs.contains(dir)
    &&& forall|i: nat| i < n ==> dirs.contains(#[trigger] disk::level_path(dir, i))
}

/// The directories after effects.
pub open spec fn dirs_after(dirs: Set<Seq<char>>, effects: Seq<EffectView>) -> Set<Seq<char>> {
    Set::new(|path: Seq<char>| is_dir_at(dirs, effects, effects.len() as int, path))
}

/// What stands behind the last `/` does not belong to the directory.
pub proof fn law_parent(dir: Seq<char>, name: Seq<char>)
    requires
        !name.contains('/'),
    ensures
        parent(dir + seq!['/'] + name) == dir,
    decreases name.len(),
{
    let path = dir + seq!['/'] + name;
    if name.len() == 0 {
        assert(path.drop_last() =~= dir);
    } else {
        let shorter = name.drop_last();
        assert(path.last() == name.last());
        assert(name.contains(name[name.len() - 1]));
        assert(!shorter.contains('/')) by {
            if shorter.contains('/') {
                let i = choose|i: int| 0 <= i < shorter.len() && shorter[i] == '/';
                assert(name[i] == '/');
            }
        }
        assert(path.drop_last() =~= dir + seq!['/'] + shorter);
        law_parent(dir, shorter);
    }
}

/// Where the files of the store lie: the manifest, its copy and the log in the directory of the
/// store, as `MANIFEST.txt`, `MANIFEST.tmp` and `wal.db`, the directory of a level there as `l` and
/// its number, and a table of the level in that directory under its name.
pub proof fn law_paths(dir: Seq<char>, level: nat, name: Seq<char>)
    ensures
        disk::manifest_path(dir) == dir + seq![
            '/', 'M', 'A', 'N', 'I', 'F', 'E', 'S', 'T', '.', 't', 'x', 't',
        ],
        disk::manifest_tmp_path(dir) == dir + seq![
            '/', 'M', 'A', 'N', 'I', 'F', 'E', 'S', 'T', '.', 't', 'm', 'p',
        ],
        disk::wal_path(dir) == dir + seq!['/', 'w', 'a', 'l', '.', 'd', 'b'],
        disk::level_path(dir, level) == dir + seq!['/', 'l'] + text::decimal(level),
        disk::table_path(dir, level, name) == dir + seq!['/', 'l'] + text::decimal(level) + seq![
            '/',
        ] + name,
        parent(disk::manifest_path(dir)) == dir,
        parent(disk::manifest_tmp_path(dir)) == dir,
        parent(disk::wal_path(dir)) == dir,
        parent(disk::level_path(dir, level)) == dir,
        !name.contains('/') ==> parent(disk::table_path(dir, level, name)) == disk::level_path(
            dir,
            level,
        ),
{
    reveal_strlit("/MANIFEST.txt");
    reveal_strlit("/MANIFEST.tmp");
    reveal_strlit("/wal.db");
    reveal_strlit("/l");
    reveal_strlit("/");
    let txt = seq!['M', 'A', 'N', 'I', 'F', 'E', 'S', 'T', '.', 't', 'x', 't'];
    let tmp = seq!['M', 'A', 'N', 'I', 'F', 'E', 'S', 'T', '.', 't', 'm', 'p'];
    let log = seq!['w', 'a', 'l', '.', 'd', 'b'];
    assert(disk::manifest_path(dir) =~= dir + seq!['/'] + txt);
    assert(disk::manifest_tmp_path(dir) =~= dir + seq!['/'] + tmp);
    assert(disk::wal_path(dir) =~= dir + seq!['/'] + log);
    assert(disk::manifest_path(dir) =~= dir + seq![
        '/', 'M', 'A', 'N', 'I', 'F', 'E', 'S', 'T', '.', 't', 'x', 't',
    ]);
    assert(disk::manifest_tmp_path(dir) =~= dir + seq![
        '/', 'M', 'A', 'N', 'I', 'F', 'E', 'S', 'T', '.', 't', 'm', 'p',
    ]);
    assert(disk::wal_path(dir) =~= dir + seq!['/', 'w', 'a', 'l', '.', 'd', 'b']);
    law_parent(dir, txt);
    law_parent(dir, tmp);
    law_parent(dir, log);
    let d = text::decimal(level);
    let leaf = seq!['l'] + d;
    assert("/l"@ =~= seq!['/', 'l']);
    assert(disk::level_path(dir, level) =~= dir + seq!['/'] + leaf);
    text::lemma_decimal(level);
    assert(!leaf.contains('/')) by {
        assert forall|i: int| 0 <= i < leaf.len() implies leaf[i] != '/' by {
            if i > 0 {
                assert(leaf[i] == d[i - 1]);
                assert(text::is_digit(d[i - 1]));
            }
        }
    }
    law_parent(dir, leaf);
    assert("/"@ =~= seq!['/']);
    assert(disk::table_path(dir, level, name) =~= dir + seq!['/', 'l'] + d + seq!['/'] + name);
    if !name.contains('/') {
        law_parent(disk::level_path(dir, level), name);
    }
}

/// The name of a table holds no `/`.
proof fn lemma_name_no_slash(id: nat)
    ensures
        !manifest::table_name(id).contains('/'),
{
    reveal_strlit("sst-");
    reveal_strlit(".json");
    text::lemma_decimal(id);
    let d = text::decimal(id);
    let name = manifest::table_name(id);
    assert forall|i: int| 0 <= i < name.len() implies name[i] != '/' by {
        if 4 <= i < 4 + d.len() {
            assert(name[i] == d[i - 4]);
            assert(text::is_digit(d[i - 4]));
        }
    }
}

/// When the store is opened, every file and directory is made in a directory that is there, if that
/// of the store is; and then the directories of all levels are there, and that of level 0 always.
pub proof fn law_open_placed(dirs: Set<Seq<char>>, dir: Seq<char>, fresh: bool, n: nat)
    requires
        dirs.contains(dir),
    ensures
        is_placed(dirs, storage::open_effects(dir, fresh, n)),
        has_dirs(dirs_after(dirs, storage::open_effects(dir, fresh, n)), dir, n),
        has_dirs(dirs_after(dirs, storage::open_effects(dir, fresh, n)), dir, 1),
{
    let effects = storage::open_effects(dir, fresh, n);
    let k: int = if fresh {
        1
    } else {
        0
    };
    assert(effects.len() == k + n + 1);
    assert forall|i: int| k <= i < k + n implies #[trigger] effects[i] == (EffectView::CreateDir {
        path: disk::level_path(dir, (i - k) as nat),
    }) by {
        assert(effects[i] == storage::dir_effects(dir, n)[i - k]);
    }
    let last = k + n;
    assert(effects[last] == (EffectView::CreateDir { path: disk::level_path(dir, 0) }));
    law_paths(dir, 0, Seq::empty());
    assert forall|i: int| 0 <= i < effects.len() implies #[trigger] has_place(dirs, effects, i) by {
        if i >= k {
            let level = if i == last {
                0
            } else {
                (i - k) as nat
            };
            law_paths(dir, level, Seq::empty());
            assert(effects[i] == (EffectView::CreateDir { path: disk::level_path(dir, level) }));
        }
    }
    let after = dirs_after(dirs, effects);
    assert forall|i: nat| i < n || i == 0 implies after.contains(
        #[trigger] disk::level_path(dir, i),
    ) by {
        let at = if i < n {
            k + i
        } else {
            last
        };
        assert(effects[at] == (EffectView::CreateDir { path: disk::level_path(dir, i) }));
    }
}

/// When a store is opened where there is none, all of its files are made in directories that are
/// there, if that of the store is.
pub proof fn law_first_placed(dirs: Set<Seq<char>>, dir: Seq<char>)
    requires
        dirs.contains(dir),
    ensures
        is_placed(dirs, soundness::first_effects(dir)),
        has_dirs(dirs_after(dirs, soundness::first_effects(dir)), dir, 1),
{
    let made = storage::open_effects(dir, true, 1);
    let effects = soundness::first_effects(dir);
    law_open_placed(dirs, dir, true, 1);
    law_paths(dir, 0, Seq::empty());
    assert(effects.len() == made.len() + 1);
    assert forall|i: int| 0 <= i < effects.len() implies #[trigger] has_place(dirs, effects, i) by {
        if i < made.len() {
            assert(effects[i] == made[i]);
            assert(has_place(dirs, made, i));
            assert forall|path: Seq<char>| is_dir_at(dirs, made, i, path) implies #[trigger]
                is_dir_at(dirs, effects, i, path) by {
                if !dirs.contains(path) {
                    let k = choose|k: int|
                        0 <= k < i && #[trigger] made[k] == (EffectView::CreateDir { path });
                    assert(effects[k] == made[k]);
                }
            }
        }
    }
    let level = disk::level_path(dir, 0);
    assert(made[2] == (EffectView::CreateDir { path: level }));
    assert(effects[2] == made[2]);
    assert(dirs_after(dirs, effects).contains(level));
}

/// What is logged is added to a log that is there, waits for the disk, and is no other effect.
pub proof fn law_log_done(
    store: StoreView,
    files: Files,
    levels: Seq<Seq<LineView>>,
    line: Seq<char>,
)
    requires
        soundness::is_sound(store, files, levels),
    ensures
        finds_files(files, storage::log_effects(store.data_dir, line)),
        is_synced(store.data_dir, storage::log_effects(store.data_dir, line)),
        storage::log_effects(store.data_dir, line).len() == 1,
        storage::log_effects(store.data_dir, line)[0] is Append,
{
    let effects = storage::log_effects(store.data_dir, line);
    assert(effects.take(0) =~= Seq::empty());
}

/// The manifest is replaced in the directory of the store, and what is renamed is there.
proof fn lemma_manifest_effects(dir: Seq<char>, levels: Seq<Seq<LineView>>)
    ensures
        ({
            let e = storage::manifest_effects(dir, levels);
            &&& e.len() == 3
            &&& e[0] is WriteFile && e[0]->WriteFile_path == disk::manifest_tmp_path(dir)
            &&& e[1] == (EffectView::Rename {
                from: disk::manifest_tmp_path(dir),
                to: disk::manifest_path(dir),
            })
            &&& e[2] == (EffectView::SyncParent { path: disk::manifest_path(dir) })
        }),
{
}

/// A flush writes in directories that are there, renames a file that is there, and waits for the
/// disk, so that all of it can be done and nothing is lost.
pub proof fn law_flush_done(
    store: StoreView,
    files: Files,
    levels: Seq<Seq<LineView>>,
    dirs: Set<Seq<char>>,
)
    requires
        has_dirs(dirs, store.data_dir, 1),
    ensures
        is_placed(dirs, flush_laws::flushing(store, levels)),
        finds_files(files, flush_laws::flushing(store, levels)),
        is_synced(store.data_dir, flush_laws::flushing(store, levels)),
        forall|n: nat| #[trigger]
            has_dirs(dirs, store.data_dir, n) ==> has_dirs(
                dirs_after(dirs, flush_laws::flushing(store, levels)),
                store.data_dir,
                n,
            ),
{
    let dir = store.data_dir;
    let id = store.next_ids[0] as nat;
    let name = manifest::table_name(id);
    let effects = flush_laws::flushing(store, levels);
    let path = disk::table_path(dir, 0, name);
    lemma_manifest_effects(dir, storage::flushed_levels(levels, id));
    assert(effects.len() == 6);
    law_paths(dir, 0, name);
    lemma_name_no_slash(id);
    assert(dirs.contains(disk::level_path(dir, 0)));
    assert(effects[0] is WriteFile && effects[0]->WriteFile_path == path);
    assert(effects[1] == (EffectView::SyncParent { path }));
    assert(effects[5] is WriteFile && effects[5]->WriteFile_path == disk::wal_path(dir));
    assert forall|n: int| 0 <= n < effects.len() implies has_file(
        disk::run(files, effects.take(n)),
        #[trigger] effects[n],
    ) by {
        if n == 3 {
            assert(effects.take(3).drop_last() =~= effects.take(2));
            assert(effects.take(3).last() == effects[2]);
        }
    }
}

/// The effects of a merge, part by part.
proof fn lemma_parts(store: StoreView, c: CompactionView, s: Seq<Pair>) -> (at: (int, int, int))
    ensures
        ({
            let dir = store.data_dir;
            let effects = compact_laws::compacting(store, c, s);
            let cs = compaction::chunks(s, TABLE_CAPACITY as nat);
            let first = compaction::next_id(c, store.next_ids);
            let written = compaction::chunk_effects(dir, c.level + 1, cs, first);
            let ls = c.levels[c.level as int];
            &&& at.0 == if compaction::opens_level(c, store.next_ids) {
                1int
            } else {
                0
            }
            &&& at.0 == 1 ==> effects[0] == (EffectView::CreateDir {
                path: disk::level_path(dir, store.next_ids.len()),
            })
            &&& at.1 == at.0 + written.len()
            &&& at.2 == at.1 + ls.len()
            &&& effects.len() == at.2 + 3
            &&& forall|i: int| at.0 <= i < at.1 ==> #[trigger] effects[i] == written[i - at.0]
            &&& forall|i: int|
                at.1 <= i < at.2 ==> #[trigger] effects[i] == (EffectView::Remove {
                    path: disk::table_path(dir, c.level, ls[i - at.1].sst_name),
                })
            &&& effects[at.2] is WriteFile && effects[at.2]->WriteFile_path
                == disk::manifest_tmp_path(dir)
            &&& effects[at.2 + 1] == (EffectView::Rename {
                from: disk::manifest_tmp_path(dir),
                to: disk::manifest_path(dir),
            })
            &&& effects[at.2 + 2] == (EffectView::SyncParent { path: disk::manifest_path(dir) })
        }),
{
    let dir = store.data_dir;
    let effects = compact_laws::compacting(store, c, s);
    let cs = compaction::chunks(s, TABLE_CAPACITY as nat);
    let first = compaction::next_id(c, store.next_ids);
    let written = compaction::chunk_effects(dir, c.level + 1, cs, first);
    let removed = compaction::remove_effects(dir, c.level, c.levels[c.level as int]);
    let a: int = if compaction::opens_level(c, store.next_ids) {
        1
    } else {
        0
    };
    let b = a + written.len();
    let d = b + removed.len();
    lemma_manifest_effects(dir, compaction::compacted_levels(c, store.next_ids, s));
    assert forall|i: int| b <= i < d implies #[trigger] effects[i] == (EffectView::Remove {
        path: disk::table_path(dir, c.level, c.levels[c.level as int][i - b].sst_name),
    }) by {
        assert(effects[i] == removed[i - b]);
    }
    (a, b, d)
}

/// The merged tables are written one after the other, and each is waited for.
proof fn lemma_written(
    dir: Seq<char>,
    level: nat,
    cs: Seq<Seq<Pair>>,
    first: nat,
    i: int,
)
    requires
        0 <= i < compaction::chunk_effects(dir, level, cs, first).len(),
    ensures
        compaction::chunk_effects(dir, level, cs, first).len() == 2 * cs.len(),
        ({
            let e = compaction::chunk_effects(dir, level, cs, first);
            let path = disk::table_path(dir, level, manifest::table_name((first + i / 2) as nat));
            if i % 2 == 0 {
                &&& e[i] is WriteFile && e[i]->WriteFile_path == path
                &&& i + 1 < e.len()
                &&& e[i + 1] == (EffectView::SyncParent { path })
            } else {
                e[i] == (EffectView::SyncParent { path })
            }
        }),
    decreases cs.len(),
{
    lemma_written_len(dir, level, cs, first);
    let front = cs.drop_last();
    let before = compaction::chunk_effects(dir, level, front, first);
    let e = compaction::chunk_effects(dir, level, cs, first);
    lemma_written_len(dir, level, front, first);
    if i < before.len() {
        lemma_written(dir, level, front, first, i);
        assert(e[i] == before[i]);
        if i % 2 == 0 {
            assert(e[i + 1] == before[i + 1]);
        }
    } else {
        let last = storage::table_effects(
            dir,
            level,
            (first + cs.len() - 1) as nat,
            cs.last(),
        );
        assert(e[i] == last[i - before.len()]);
        assert(i / 2 == cs.len() - 1);
        if i % 2 == 0 {
            assert(e[i + 1] == last[1]);
        }
    }
}

proof fn lemma_written_len(dir: Seq<char>, level: nat, cs: Seq<Seq<Pair>>, first: nat)
    ensures
        compaction::chunk_effects(dir, level, cs, first).len() == 2 * cs.len(),
    decreases cs.len(),
{
    if cs.len() > 0 {
        lemma_written_len(dir, level, cs.drop_last(), first);
    }
}

/// A merge writes every table in a directory that is there by then, that of a new level, whatever
/// its number, among them, and waits for the disk. Afterwards the directories of all levels are
/// there. The files that are there do not matter.
pub proof fn law_compact_placed(
    store: StoreView,
    c: CompactionView,
    s: Seq<Pair>,
    dirs: Set<Seq<char>>,
)
    requires
        c.level < store.next_ids.len(),
        has_dirs(dirs, store.data_dir, store.next_ids.len()),
    ensures
        is_placed(dirs, compact_laws::compacting(store, c, s)),
        is_synced(store.data_dir, compact_laws::compacting(store, c, s)),
        has_dirs(
            dirs_after(dirs, compact_laws::compacting(store, c, s)),
            store.data_dir,
            compaction::compacted_ids(c, store.next_ids, s).len(),
        ),
{
    let dir = store.data_dir;
    let effects = compact_laws::compacting(store, c, s);
    let cs = compaction::chunks(s, TABLE_CAPACITY as nat);
    let first = compaction::next_id(c, store.next_ids);
    let next = c.level + 1;
    let at = lemma_parts(store, c, s);
    law_paths(dir, next, Seq::empty());
    let place = disk::level_path(dir, next);
    assert forall|n: int| 0 <= n < effects.len() implies #[trigger] has_place(dirs, effects, n) by {
        if n < at.0 {
            law_paths(dir, store.next_ids.len(), Seq::empty());
        } else if n < at.1 {
            lemma_written(dir, next, cs, first, n - at.0);
            let id = (first + (n - at.0) / 2) as nat;
            lemma_name_no_slash(id);
            law_paths(dir, next, manifest::table_name(id));
            if at.0 == 1 {
                assert(effects[0] == (EffectView::CreateDir { path: place }));
                assert(is_dir_at(dirs, effects, n, place));
            } else {
                assert(dirs.contains(place));
            }
        }
    }
    assert forall|n: int| 0 <= n < effects.len() implies match #[trigger] effects[n] {
        EffectView::CreateFile { path, content } => false,
        EffectView::WriteFile { path, content } => path == disk::manifest_tmp_path(dir) || path
            == disk::wal_path(dir) || (n + 1 < effects.len() && effects[n + 1]
            == (EffectView::SyncParent { path })),
        EffectView::Rename { from, to } => n + 1 < effects.len() && effects[n + 1]
            == (EffectView::SyncParent { path: to }),
        _ => true,
    } by {
        if at.0 <= n < at.1 {
            lemma_written(dir, next, cs, first, n - at.0);
            if (n - at.0) % 2 == 0 {
                lemma_written_len(dir, next, cs, first);
                assert(effects[n + 1] == compaction::chunk_effects(dir, next, cs, first)[n + 1
                    - at.0]);
            }
        }
    }
    let after = dirs_after(dirs, effects);
    assert forall|i: nat| i < compaction::compacted_ids(c, store.next_ids, s).len() implies after.contains(
        #[trigger] disk::level_path(dir, i),
    ) by {
        if i < store.next_ids.len() {
            assert(dirs.contains(disk::level_path(dir, i)));
        } else {
            assert(effects[0] == (EffectView::CreateDir { path: disk::level_path(dir, i) }));
        }
    }
}

/// Every table that a merge removes is there until then, where the tables are sound and no two of
/// the level have one name; and what is renamed is there.
pub proof fn law_compact_finds(
    store: StoreView,
    files: Files,
    c: CompactionView,
    s: Seq<Pair>,
)
    requires
        c.level < c.levels.len(),
        soundness::are_sound_tables(store.data_dir, files, c.levels),
        forall|i: int, j: int|
            0 <= i < j < c.levels[c.level as int].len() ==> (#[trigger] c.levels[c.level as int][i]).sst_name
                != (#[trigger] c.levels[c.level as int][j]).sst_name,
    ensures
        finds_files(files, compact_laws::compacting(store, c, s)),
{
    let dir = store.data_dir;
    let effects = compact_laws::compacting(store, c, s);
    let cs = compaction::chunks(s, TABLE_CAPACITY as nat);
    let first = compaction::next_id(c, store.next_ids);
    let next = c.level + 1;
    let ls = c.levels[c.level as int];
    let at = lemma_parts(store, c, s);
    assert forall|n: int| 0 <= n < effects.len() implies has_file(
        disk::run(files, effects.take(n)),
        #[trigger] effects[n],
    ) by {
        if at.0 <= n < at.1 {
            lemma_written(dir, next, cs, first, n - at.0);
        } else if at.1 <= n < at.2 {
            let j = n - at.1;
            let q = disk::table_path(dir, c.level, ls[j].sst_name);
            let part = effects.take(n);
            assert(soundness::is_sound_table(dir, files, c.level, c.levels[c.level as int][j]));
            assert forall|i: int| 0 <= i < part.len() implies !disk::touches(
                #[trigger] part[i],
                q,
            ) by {
                assert(part[i] == effects[i]);
                if at.0 <= i < at.1 {
                    lemma_written(dir, next, cs, first, i - at.0);
                    let name = manifest::table_name((first + (i - at.0) / 2) as nat);
                    if disk::table_path(dir, next, name) == q {
                        disk::lemma_table_path_injective(
                            dir,
                            next,
                            name,
                            c.level,
                            ls[j].sst_name,
                        );
                    }
                } else if at.1 <= i {
                    let name = c.levels[c.level as int][i - at.1].sst_name;
                    if disk::table_path(dir, c.level, name) == q {
                        disk::lemma_table_path_injective(
                            dir,
                            c.level,
                            name,
                            c.level,
                            c.levels[c.level as int][j].sst_name,
                        );
                    }
                }
            }
            disk::lemma_run_untouched(files, part, q);
        } else if n == at.2 + 1 {
            assert(effects.take(n).drop_last() =~= effects.take(at.2));
            assert(effects.take(n).last() == effects[at.2]);
        }
    }
}

} // verus!
