//! The store: what it holds in memory, and what it asks to be done to its files.

use crate::compact_laws;
use crate::compaction;
use crate::compaction::{read_tables, write_chunks, Compaction, CompactionView};
use crate::disk;
use crate::disk::{
    make_level_path, make_manifest_path, make_manifest_tmp_path, make_table_path, make_wal_path,
    Effect, EffectView, Files,
};
use crate::error::StoreError;
use crate::flush_laws;
use crate::manifest;
use crate::manifest::{
    get_next_ids, make_table_name, parse_manifest, render_manifest, LineView, ManifestLine,
};
use crate::merge;
use crate::search;
use crate::search::{make_not_found, Answer, Search, SearchView};
use crate::sorted;
use crate::sorted::{InfoView, Pair};
use crate::soundness;
use crate::step_laws;
use crate::table;
use crate::table::{Entry, Info, Memtable, MemtableIter};
use crate::text;
use crate::text::add_line;
use crate::wal;
use crate::wal::{log_delete, log_put, replay_wal};
use vstd::prelude::*;

verus! {

/// Why a table has no value for a key.
#[derive(Debug, Clone, Copy, PartialEq, Eq, Structural)]
pub enum KVError {
    NotFound,
    Deleted,
}

/// How many keys a table holds: the one in memory when it is written out, one on disk at most.
pub const TABLE_CAPACITY: usize = 2000;

/// How many tables on a level make it due for compaction.
pub const LEVEL_LIMIT: usize = 5;

/// What is to be done next after a key was set: a full table in memory is written out, then levels
/// with too many tables are compacted, and then the table in memory is emptied.
#[derive(Debug, Clone, Copy, PartialEq, Eq, Structural)]
pub enum Step {
    Flush,
    Compact,
    Clear,
    Done,
}

/// The store in memory.
pub struct KVStore {
    memtable: Memtable,
    next_ids: Vec<usize>,
    data_dir: String,
}

/// What a `KVStore` holds: the table in memory, for each level the number of its next table, and
/// the directory of the files.
pub struct StoreView {
    pub memtable: Map<Seq<char>, InfoView>,
    pub next_ids: Seq<usize>,
    pub data_dir: Seq<char>,
}

impl View for KVStore {
    type V = StoreView;

    closed spec fn view(&self) -> StoreView {
        StoreView {
            memtable: self.memtable@,
            next_ids: self.next_ids@,
            data_dir: self.data_dir@,
        }
    }
}

impl StoreView {
    /// What a read of a key gives back, going by these files: the table in memory decides, and
    /// where it does not have the key, the files do.
    pub open spec fn answer(self, files: Files, key: Seq<char>) -> Result<Answer, StoreError> {
        if self.memtable.contains_key(key) {
            Ok(search::answer_of(self.memtable[key], key))
        } else {
            search::disk_answer(self.data_dir, files, key)
        }
    }

    /// The store with an empty table in memory.
    pub open spec fn cleared(self) -> StoreView {
        StoreView { memtable: Map::empty(), ..self }
    }

    /// The store with this pair in the table in memory.
    pub open spec fn set(self, p: Pair) -> StoreView {
        StoreView { memtable: self.memtable.insert(p.0, p.1), ..self }
    }
}

/// The table in memory has finitely many keys.
pub proof fn lemma_finite(store: KVStore)
    ensures
        store@.memtable.dom().finite(),
{
    table::lemma_finite(store.memtable);
}

impl Clone for KVStore {
    fn clone(&self) -> (r: Self)
        ensures
            r@ == self@,
    {
        KVStore {
            memtable: self.memtable.clone(),
            next_ids: self.next_ids.clone(),
            data_dir: self.data_dir.clone(),
        }
    }
}

/// The manifest of a store without tables.
pub open spec fn first_manifest() -> Seq<char> {
    "[L0]\n"@
}

/// The numbers for the next tables of a store with this manifest, or without one.
pub open spec fn opened_ids(manifest: Option<Seq<char>>) -> Result<Seq<usize>, StoreError> {
    match manifest {
        None => Ok(seq![0usize]),
        Some(content) => manifest::manifest_ids(content),
    }
}

/// The directories of the first levels.
pub open spec fn dir_effects(dir: Seq<char>, n: nat) -> Seq<EffectView> {
    Seq::new(n, |i: int| EffectView::CreateDir { path: disk::level_path(dir, i as nat) })
}

/// What is done to the files when the store is opened: a first manifest, if there is none, a
/// directory for each level, and one for level 0 in any case.
pub open spec fn open_effects(dir: Seq<char>, fresh: bool, n: nat) -> Seq<EffectView> {
    let start = if fresh {
        seq![
            EffectView::CreateFile { path: disk::manifest_path(dir), content: first_manifest() },
        ]
    } else {
        Seq::empty()
    };
    start + dir_effects(dir, n).push(EffectView::CreateDir { path: disk::level_path(dir, 0) })
}

/// What is done to the files when a line is logged.
pub open spec fn log_effects(dir: Seq<char>, line: Seq<char>) -> Seq<EffectView> {
    seq![EffectView::Append { path: disk::wal_path(dir), content: line.push('\n') }]
}

/// The manifest is replaced: the new one is written under another name and then renamed.
pub open spec fn manifest_effects(dir: Seq<char>, levels: Seq<Seq<LineView>>) -> Seq<EffectView> {
    seq![
        EffectView::WriteFile {
            path: disk::manifest_tmp_path(dir),
            content: manifest::manifest_text(levels),
        },
        EffectView::Rename { from: disk::manifest_tmp_path(dir), to: disk::manifest_path(dir) },
        EffectView::SyncParent { path: disk::manifest_path(dir) },
    ]
}

/// A table is written.
pub open spec fn table_effects(
    dir: Seq<char>,
    level: nat,
    id: nat,
    s: Seq<Pair>,
) -> Seq<EffectView> {
    let path = disk::table_path(dir, level, manifest::table_name(id));
    seq![
        EffectView::WriteFile { path, content: table::table_text(s) },
        EffectView::SyncParent { path },
    ]
}

/// What is done to the files when the table in memory is written out: first the table, then the
/// manifest that lists it, and only then the log is emptied.
pub open spec fn flush_effects(
    dir: Seq<char>,
    id: nat,
    s: Seq<Pair>,
    levels: Seq<Seq<LineView>>,
) -> Seq<EffectView> {
    table_effects(dir, 0, id, s) + manifest_effects(dir, levels).push(
        EffectView::WriteFile { path: disk::wal_path(dir), content: Seq::empty() },
    )
}

/// The levels with one more table on level 0.
pub open spec fn flushed_levels(levels: Seq<Seq<LineView>>, id: nat) -> Seq<Seq<LineView>> {
    levels.update(0, levels[0].push(manifest::unkeyed(manifest::table_name(id))))
}

/// Whether the table in memory can be written out: the levels of the manifest, if it can.
pub open spec fn flush_check(store: StoreView, content: Seq<char>) -> Result<
    Seq<Seq<LineView>>,
    StoreError,
> {
    if store.next_ids.len() == 0 {
        Err(StoreError::NoLevel)
    } else {
        match manifest::manifest_levels(content) {
            Err(e) => Err(e),
            Ok(levels) => if levels.len() == 0 {
                Err(StoreError::NoLevel)
            } else if store.next_ids[0] == usize::MAX {
                Err(StoreError::OutOfNumbers)
            } else {
                Ok(levels)
            },
        }
    }
}

impl KVStore {
    /// A store in this directory, with this manifest, or with none yet, and what is to be done to
    /// the files.
    pub fn new(data_dir: String, manifest: Option<&str>) -> (r: Result<
        (Self, Vec<Effect>),
        StoreError,
    >)
        ensures
            match opened_ids(
                match manifest {
                    None => None,
                    Some(content) => Some(content@),
                },
            ) {
                Ok(ids) => {
                    &&& r is Ok
                    &&& r->Ok_0.0@ == StoreView {
                        memtable: Map::empty(),
                        next_ids: ids,
                        data_dir: data_dir@,
                    }
                    &&& disk::effects_view(r->Ok_0.1@) == open_effects(
                        data_dir@,
                        manifest is None,
                        ids.len(),
                    )
                },
                Err(e) => r is Err && r->Err_0 == e,
            },
            r matches Ok(opened) ==> opened.0@.memtable.dom().finite(),
            manifest is None ==> r is Ok && r->Ok_0.0@ == soundness::first_store(data_dir@),
            forall|levels: Seq<Seq<LineView>>|
                manifest is Some && manifest->Some_0@ == #[trigger] manifest::manifest_text(levels)
                    && manifest::is_writable(levels) && levels.len() > 0 && manifest::is_named(
                    levels[0],
                ) ==> {
                    &&& r is Ok
                    &&& r->Ok_0.0@.next_ids.len() == levels.len()
                    &&& soundness::goes_on_after(levels[0], r->Ok_0.0@.next_ids[0] as nat)
                    &&& forall|i: int|
                        0 < i < levels.len() ==> #[trigger] r->Ok_0.0@.next_ids[i] == 0
                },
    {
        proof {
            assert forall|levels: Seq<Seq<LineView>>|
                manifest is Some && manifest->Some_0@ == #[trigger] manifest::manifest_text(levels)
                    && manifest::is_writable(levels) && levels.len() > 0 && manifest::is_named(
                    levels[0],
                ) implies {
                let ids = manifest::manifest_ids(manifest->Some_0@);
                &&& ids is Ok
                &&& ids->Ok_0.len() == levels.len()
                &&& soundness::goes_on_after(levels[0], ids->Ok_0[0] as nat)
                &&& forall|i: int| 0 < i < levels.len() ==> #[trigger] ids->Ok_0[i] == 0
            } by {
                soundness::law_opened_numbers(levels, Seq::empty());
            }
        }
        let mut effects: Vec<Effect> = Vec::new();
        let mut next_ids: Vec<usize> = Vec::new();
        match manifest {
            None => {
                effects.push(
                    Effect::CreateFile {
                        path: make_manifest_path(data_dir.as_str()),
                        content: "[L0]\n".to_owned(),
                    },
                );
                next_ids.push(0);
                assert(next_ids@ =~= seq![0usize]);
            },
            Some(content) => match get_next_ids(content) {
                Ok(ids) => {
                    next_ids = ids;
                },
                Err(e) => {
                    return Err(e);
                },
            },
        }
        let ghost start = disk::effects_view(effects@);
        let mut i: usize = 0;
        assert(start + dir_effects(data_dir@, 0) =~= start);
        while i < next_ids.len()
            invariant
                i <= next_ids@.len(),
                disk::effects_view(effects@) == start + dir_effects(data_dir@, i as nat),
            decreases next_ids.len() - i,
        {
            let ghost before = disk::effects_view(effects@);
            let effect = Effect::CreateDir { path: make_level_path(data_dir.as_str(), i) };
            effects.push(effect);
            i += 1;
            proof {
                assert(disk::effects_view(effects@) =~= before.push(effect@));
                assert(before.push(effect@) =~= start + dir_effects(data_dir@, i as nat));
            }
        }
        let ghost before = disk::effects_view(effects@);
        let effect = Effect::CreateDir { path: make_level_path(data_dir.as_str(), 0) };
        effects.push(effect);
        proof {
            assert(disk::effects_view(effects@) =~= before.push(effect@));
            assert(disk::effects_view(effects@) =~= open_effects(
                data_dir@,
                manifest is None,
                next_ids@.len(),
            ));
        }
        let store = KVStore { memtable: Memtable::new(), next_ids, data_dir };
        proof {
            lemma_finite(store);
        }
        Ok((store, effects))
    }

    /// Takes up what the log holds, or starts a log, if there is none.
    pub fn open_wal(&mut self, log: Option<&str>) -> (r: Result<Vec<Effect>, StoreError>)
        ensures
            match log {
                None => {
                    &&& r is Ok
                    &&& disk::effects_view(r->Ok_0@) == seq![
                        EffectView::CreateFile {
                            path: disk::wal_path(old(self)@.data_dir),
                            content: Seq::empty(),
                        },
                    ]
                    &&& final(self)@ == old(self)@
                },
                Some(content) => match wal::log_pairs(text::lines(content@)) {
                    Ok(s) => {
                        &&& r is Ok
                        &&& r->Ok_0@.len() == 0
                        &&& final(self)@ == (StoreView {
                            memtable: wal::overlay(old(self)@.memtable, s),
                            ..old(self)@
                        })
                    },
                    Err(e) => r is Err && r->Err_0 == e && final(self)@ == old(self)@,
                },
            },
            final(self)@.memtable.dom().finite(),
    {
        let mut effects: Vec<Effect> = Vec::new();
        match log {
            None => {
                effects.push(
                    Effect::CreateFile {
                        path: make_wal_path(self.data_dir.as_str()),
                        content: String::new(),
                    },
                );
                assert(disk::effects_view(effects@) =~= seq![
                    EffectView::CreateFile {
                        path: disk::wal_path(old(self)@.data_dir),
                        content: Seq::empty(),
                    },
                ]);
                proof {
                    lemma_finite(*self);
                }
                Ok(effects)
            },
            Some(content) => {
                let replayed = replay_wal(content, &mut self.memtable);
                proof {
                    lemma_finite(*self);
                }
                match replayed {
                    Ok(()) => Ok(effects),
                    Err(e) => Err(e),
                }
            },
        }
    }

    /// A read of a key: done at once where the table in memory has the key.
    pub fn get(&self, key: &str) -> (r: Search)
        ensures
            r@ == if self@.memtable.contains_key(key@) {
                SearchView::Done { answer: search::answer_of(self@.memtable[key@], key@) }
            } else {
                SearchView::Manifest { dir: self@.data_dir, key: key@ }
            },
            forall|files: Files| #[trigger] r@.outcome(files) == self@.answer(files, key@),
    {
        match self.memtable.get(key) {
            Ok(value) => Search::done(Ok(value)),
            Err(KVError::Deleted) => Search::done(Err(make_not_found(key))),
            Err(KVError::NotFound) => Search::new(self.data_dir.as_str(), key),
        }
    }

    /// Sets a key: what is to be done to the files, and what is to be done next. Once the table in
    /// memory has reached its capacity, it is to be written out.
    pub fn put(&mut self, key: String, value: String) -> (r: (Vec<Effect>, Step))
        ensures
            disk::effects_view(r.0@) == log_effects(
                old(self)@.data_dir,
                wal::put_line(key@, value@),
            ),
            wal::logs(wal::put_line(key@, value@), wal::put_pair(key@, value@)),
            final(self)@ == old(self)@.set(wal::put_pair(key@, value@)),
            final(self)@ == (StoreView {
                memtable: old(self)@.memtable.insert(
                    key@,
                    InfoView { value: value@, deleted: false },
                ),
                next_ids: old(self)@.next_ids,
                data_dir: old(self)@.data_dir,
            }),
            r.1 == Step::Flush <==> final(self)@.memtable.len() == 2000,
            forall|files: Files, levels: Seq<Seq<LineView>>| #[trigger]
                soundness::is_sound(old(self)@, files, levels) ==> soundness::is_sound(
                    final(self)@,
                    disk::run(files, disk::effects_view(r.0@)),
                    levels,
                ),
            final(self)@.memtable.dom().finite(),
            r.1 == if final(self)@.memtable.len() == TABLE_CAPACITY {
                Step::Flush
            } else {
                Step::Done
            },
    {
        let line = log_put(key.as_str(), value.as_str());
        let effects = self.log(line.as_str());
        self.memtable.insert(Entry::new(key, Info { value: value, deleted: false }));
        let step = if self.memtable.len() == TABLE_CAPACITY {
            Step::Flush
        } else {
            Step::Done
        };
        proof {
            lemma_finite(*self);
            assert forall|files: Files, levels: Seq<Seq<LineView>>| #[trigger]
                soundness::is_sound(old(self)@, files, levels) implies soundness::is_sound(
                self@,
                disk::run(files, disk::effects_view(effects@)),
                levels,
            ) by {
                soundness::law_log_keeps(old(self)@, files, levels, line@, wal::put_pair(key@, value@));
            }
        }
        (effects, step)
    }

    /// Deletes a key: what is to be done to the files.
    pub fn delete(&mut self, key: &str) -> (r: Vec<Effect>)
        ensures
            disk::effects_view(r@) == log_effects(old(self)@.data_dir, wal::delete_line(key@)),
            wal::logs(wal::delete_line(key@), wal::delete_pair(key@)),
            final(self)@ == old(self)@.set(wal::delete_pair(key@)),
            final(self)@ == (StoreView {
                memtable: old(self)@.memtable.insert(
                    key@,
                    InfoView { value: "0"@, deleted: true },
                ),
                next_ids: old(self)@.next_ids,
                data_dir: old(self)@.data_dir,
            }),
            forall|files: Files, levels: Seq<Seq<LineView>>| #[trigger]
                soundness::is_sound(old(self)@, files, levels) ==> soundness::is_sound(
                    final(self)@,
                    disk::run(files, disk::effects_view(r@)),
                    levels,
                ),
            final(self)@.memtable.dom().finite(),
    {
        let line = log_delete(key);
        let effects = self.log(line.as_str());
        self.memtable.insert(
            Entry::new(key.to_owned(), Info { value: "0".to_owned(), deleted: true }),
        );
        proof {
            lemma_finite(*self);
            assert forall|files: Files, levels: Seq<Seq<LineView>>| #[trigger]
                soundness::is_sound(old(self)@, files, levels) implies soundness::is_sound(
                self@,
                disk::run(files, disk::effects_view(effects@)),
                levels,
            ) by {
                soundness::law_log_keeps(old(self)@, files, levels, line@, wal::delete_pair(key@));
            }
        }
        effects
    }

    /// What is to be done to log a line.
    pub fn log(&self, line: &str) -> (r: Vec<Effect>)
        ensures
            disk::effects_view(r@) == log_effects(self@.data_dir, line@),
            disk::effects_view(r@) == seq![
                EffectView::Append {
                    path: self@.data_dir + "/wal.db"@,
                    content: line@ + seq!['\n'],
                },
            ],
    {
        let mut content: String = String::new();
        add_line(&mut content, line);
        assert(content@ =~= line@.push('\n'));
        let mut effects: Vec<Effect> = Vec::new();
        effects.push(Effect::Append { path: make_wal_path(self.data_dir.as_str()), content });
        assert(disk::effects_view(effects@) =~= log_effects(self@.data_dir, line@));
        proof {
            step_laws::law_log_adds(self@.data_dir, line@);
        }
        effects
    }

    /// Writes the table in memory out as the newest table of level 0, and empties the log. The
    /// table in memory stays as it is, to be emptied after compaction. What is in the table on disk
    /// can be read back from its text. Where the files are those of the store, every read is
    /// answered as before, whether the table in memory is emptied or not.
    pub fn flush(&mut self, manifest: &str) -> (r: Result<(Vec<Effect>, Step), StoreError>)
        ensures
            match flush_check(old(self)@, manifest@) {
                Ok(levels) => {
                    let id = old(self)@.next_ids[0];
                    let s = sorted::listing(old(self)@.memtable);
                    &&& r is Ok
                    &&& r->Ok_0.1 == Step::Compact
                    &&& disk::effects_view(r->Ok_0.0@) == flush_effects(
                        old(self)@.data_dir,
                        id as nat,
                        s,
                        flushed_levels(levels, id as nat),
                    )
                    &&& final(self)@ == (StoreView {
                        next_ids: old(self)@.next_ids.update(0, (id + 1) as usize),
                        ..old(self)@
                    })
                    &&& sorted::is_sorted(s)
                    &&& sorted::first_wins(s) == old(self)@.memtable
                    &&& soundness::is_table(s)
                    &&& forall|files: Files| #[trigger]
                        soundness::is_sound(old(self)@, files, levels) && soundness::is_free(
                            levels[0],
                            id as nat,
                            1,
                        ) ==> {
                            let after = disk::run(files, disk::effects_view(r->Ok_0.0@));
                            &&& soundness::is_sound(
                                final(self)@.cleared(),
                                after,
                                flushed_levels(levels, id as nat),
                            )
                            &&& soundness::answers_as(final(self)@, after, old(self)@, files)
                            &&& soundness::answers_as(
                                final(self)@.cleared(),
                                after,
                                old(self)@,
                                files,
                            )
                        }
                },
                Err(e) => r is Err && r->Err_0 == e && final(self)@ == old(self)@,
            },
            final(self)@.memtable.dom().finite(),
    {
        proof {
            lemma_finite(*self);
        }
        if self.next_ids.len() == 0 {
            return Err(StoreError::NoLevel);
        }
        let mut levels = match parse_manifest(manifest) {
            Ok(levels) => levels,
            Err(e) => {
                return Err(e);
            },
        };
        let ghost before = manifest::levels_view(levels@);
        if levels.len() == 0 {
            return Err(StoreError::NoLevel);
        }
        let id = self.next_ids[0];
        if id == usize::MAX {
            return Err(StoreError::OutOfNumbers);
        }
        let name = make_table_name(id);
        let path = make_table_path(self.data_dir.as_str(), 0, name.as_str());

        let mut content: String = String::new();
        let mut iter = MemtableIter::new(&self.memtable);
        let ghost s = iter.remaining();
        let ghost mut n: int = 0;
        assert(s.skip(0) =~= s);
        assert(s.take(0) =~= Seq::empty());
        assert(s.take(0).map_values(|p: Pair| table::pair_line(p)) =~= Seq::empty());
        loop
            invariant
                0 <= n <= s.len(),
                iter.remaining() == s.skip(n),
                content@ == table::table_text(s.take(n)),
                forall|i: int| 0 <= i < n ==> table::reads_back(#[trigger] s[i]),
            ensures
                n == s.len(),
            decreases s.len() - n,
        {
            match iter.next() {
                None => {
                    break;
                },
                Some((key, info)) => {
                    let line = Entry::new(key, info).to_string();
                    add_line(&mut content, line.as_str());
                    proof {
                        assert(s[n] == (key@, info@));
                        assert(s.skip(n).drop_first() =~= s.skip(n + 1));
                        table::lemma_table_text_push(s.take(n), s[n]);
                        assert(s.take(n).push(s[n]) =~= s.take(n + 1));
                        n = n + 1;
                    }
                },
            }
        }
        proof {
            assert(s.take(n) =~= s);
            table::lemma_table_pairs(s);
        }

        let mut first = levels.remove(0);
        let ghost listed = manifest::level_view(first@);
        let l = ManifestLine {
            start_key: "NA".to_owned(),
            end_key: "NA".to_owned(),
            sst_name: name,
        };
        first.push(l);
        levels.insert(0, first);
        proof {
            assert(before[0] == listed);
            assert(manifest::level_view(first@) =~= listed.push(l@));
            assert(manifest::levels_view(levels@) =~= flushed_levels(before, id as nat));
        }

        let mut effects: Vec<Effect> = Vec::new();
        effects.push(Effect::WriteFile { path: path.clone(), content });
        effects.push(Effect::SyncParent { path });
        assert(disk::effects_view(effects@) =~= table_effects(self@.data_dir, 0, id as nat, s));
        self.replace_manifest(&levels, &mut effects);
        let ghost most = disk::effects_view(effects@);
        let emptied = Effect::WriteFile {
            path: make_wal_path(self.data_dir.as_str()),
            content: String::new(),
        };
        effects.push(emptied);
        proof {
            assert(disk::effects_view(effects@) =~= most.push(emptied@));
            assert(most.push(emptied@) =~= flush_effects(
                self@.data_dir,
                id as nat,
                s,
                flushed_levels(before, id as nat),
            ));
        }
        self.next_ids[0] = id + 1;
        proof {
            assert forall|files: Files| #[trigger]
                soundness::is_sound(old(self)@, files, before) && soundness::is_free(
                    before[0],
                    id as nat,
                    1,
                ) implies {
                let after = disk::run(files, disk::effects_view(effects@));
                &&& soundness::is_sound(self@.cleared(), after, flushed_levels(before, id as nat))
                &&& soundness::answers_as(self@, after, old(self)@, files)
                &&& soundness::answers_as(self@.cleared(), after, old(self)@, files)
            } by {
                flush_laws::law_flush_keeps(old(self)@, files, before);
            }
        }
        Ok((effects, Step::Compact))
    }

    /// Empties the table in memory, once what was in it is on disk.
    pub fn clear(&mut self) -> (r: Step)
        ensures
            final(self)@ == old(self)@.cleared(),
            final(self)@ == (StoreView {
                memtable: Map::empty(),
                next_ids: old(self)@.next_ids,
                data_dir: old(self)@.data_dir,
            }),
            final(self)@.memtable.dom().finite(),
            r == Step::Done,
    {
        self.memtable.clear();
        proof {
            lemma_finite(*self);
        }
        Step::Done
    }


    /// A compaction, from level 0 on, of the tables that the manifest lists.
    pub fn compact(&self, manifest: &str) -> (r: Result<Compaction, StoreError>)
        ensures
            match manifest::manifest_levels(manifest@) {
                Ok(levels) => r is Ok && r->Ok_0@ == (CompactionView { level: 0, levels }),
                Err(e) => r is Err && r->Err_0 == e,
            },
    {
        match parse_manifest(manifest) {
            Ok(levels) => Ok(Compaction { level: 0, levels }),
            Err(e) => Err(e),
        }
    }

    /// The tables that are to be merged next, newest first.
    pub fn compaction_inputs(&self, c: &Compaction) -> (r: Vec<String>)
        requires
            c@.level < c@.levels.len(),
        ensures
            text::views(r@) == c@.inputs(self@.data_dir),
    {
        c.inputs(self.data_dir.as_str())
    }

    /// Merges tables with these texts, newest first, into tables of the next level, which is then
    /// to be looked at. Nothing is done where the level does not have too many. What is in the
    /// merged tables can be read back from their texts. What looking into the files gives is as
    /// before, but for deleted keys that a deeper level still has.
    pub fn compact_level(&mut self, c: &mut Compaction, contents: &Vec<String>) -> (r: Result<
        Vec<Effect>,
        StoreError,
    >)
        ensures
            if !old(c)@.due() {
                &&& r is Ok
                &&& r->Ok_0@.len() == 0
                &&& final(self)@ == old(self)@
                &&& final(c)@ == old(c)@
            } else {
                match compaction::compact_check(
                    old(c)@,
                    old(self)@.next_ids,
                    text::views(contents@),
                ) {
                    Ok(s) => {
                        &&& r is Ok
                        &&& disk::effects_view(r->Ok_0@) == compaction::compact_effects(
                            old(self)@.data_dir,
                            old(c)@,
                            old(self)@.next_ids,
                            s,
                        )
                        &&& final(self)@ == (StoreView {
                            next_ids: compaction::compacted_ids(old(c)@, old(self)@.next_ids, s),
                            ..old(self)@
                        })
                        &&& final(c)@ == (CompactionView {
                            level: old(c)@.level + 1,
                            levels: compaction::compacted_levels(old(c)@, old(self)@.next_ids, s),
                        })
                        &&& sorted::is_sorted(s)
                        &&& sorted::first_wins(s) == sorted::live(
                            sorted::first_wins(
                                merge::merged(
                                    compaction::texts_pairs(text::views(contents@))->Ok_0,
                                ),
                            ),
                        )
                        &&& forall|i: int| 0 <= i < s.len() ==> table::reads_back(#[trigger] s[i])
                        &&& forall|files: Files| #[trigger]
                            compact_laws::is_mergeable(old(self)@, files, old(c)@, s)
                                && text::views(contents@) == compact_laws::input_texts(
                                old(self)@.data_dir,
                                files,
                                old(c)@,
                            ) ==> {
                                let after = disk::run(files, disk::effects_view(r->Ok_0@));
                                &&& soundness::is_catalog(
                                    old(self)@.data_dir,
                                    after,
                                    final(c)@.levels,
                                )
                                &&& compact_laws::finds_but_deleted(
                                    old(self)@.data_dir,
                                    after,
                                    files,
                                    old(c)@,
                                )
                            }
                    },
                    Err(e) => {
                        &&& r is Err
                        &&& r->Err_0 == e
                        &&& final(self)@ == old(self)@
                        &&& final(c)@ == old(c)@
                    },
                }
            },
    {
        if !c.due() {
            return Ok(Vec::new());
        }
        let tables = match read_tables(contents) {
            Ok(tables) => tables,
            Err(e) => {
                return Err(e);
            },
        };
        let output = merge::merge(&tables);
        let level = c.level;
        assert(level < c.levels.len());
        let next = level + 1;
        let n = self.next_ids.len();
        if (n < next && output.len() > 0) || (n > next && c.levels.len() <= next) {
            return Err(StoreError::NoLevel);
        }
        let opens: bool = n <= next;
        let first: usize = if opens {
            0
        } else {
            self.next_ids[next]
        };
        let ghost s = table::pairs(output@);
        let ghost cs = compaction::chunks(s, TABLE_CAPACITY as nat);
        let ghost was = old(c)@;
        let dir = self.data_dir.as_str();
        let (mut written, mut added) = match write_chunks(dir, next, &output, first) {
            Some(done) => done,
            None => {
                return Err(StoreError::OutOfNumbers);
            },
        };

        let mut effects: Vec<Effect> = Vec::new();
        if opens {
            effects.push(Effect::CreateDir { path: make_level_path(dir, n) });
        }
        let ghost start = disk::effects_view(effects@);
        proof {
            assert(start =~= if opens {
                seq![EffectView::CreateDir { path: disk::level_path(dir@, n as nat) }]
            } else {
                Seq::empty()
            });
        }
        let ghost chunk_part = disk::effects_view(written@);
        effects.append(&mut written);
        assert(disk::effects_view(effects@) =~= start + chunk_part);

        let ghost ls = was.levels[level as int];
        let old_level = &c.levels[level];
        assert(ls == manifest::level_view(old_level@));
        let mut j: usize = 0;
        assert(compaction::remove_effects(dir@, level as nat, ls.take(0)) =~= Seq::empty());
        assert(start + chunk_part + Seq::<EffectView>::empty() =~= start + chunk_part);
        while j < old_level.len()
            invariant
                j <= old_level@.len(),
                ls == manifest::level_view(old_level@),
                disk::effects_view(effects@) == start + chunk_part + compaction::remove_effects(
                    dir@,
                    level as nat,
                    ls.take(j as int),
                ),
            decreases old_level.len() - j,
        {
            let ghost before = disk::effects_view(effects@);
            let effect = Effect::Remove {
                path: make_table_path(dir, level, old_level[j].sst_name.as_str()),
            };
            effects.push(effect);
            proof {
                assert(ls[j as int] == old_level@[j as int]@);
                assert(disk::effects_view(effects@) =~= before.push(effect@));
                assert(before.push(effect@) =~= start + chunk_part + compaction::remove_effects(
                    dir@,
                    level as nat,
                    ls.take(j + 1),
                ));
            }
            j += 1;
        }
        assert(ls.take(j as int) =~= ls);

        if opens {
            let none: Vec<ManifestLine> = Vec::new();
            c.levels.push(none);
            self.next_ids.push(0);
            assert(manifest::level_view(none@) =~= Seq::empty());
        }
        let ghost base = if opens {
            was.levels.push(Seq::empty())
        } else {
            was.levels
        };
        assert(manifest::levels_view(c.levels@) =~= base);
        c.levels[level] = Vec::new();
        let ghost emptied = base.update(level as int, Seq::empty());
        assert(manifest::levels_view(c.levels@) =~= emptied) by {
            assert(manifest::level_view(c.levels@[level as int]@) =~= Seq::empty());
        }
        let ghost more = manifest::level_view(added@);
        let count = added.len();
        assert(count == cs.len());
        let mut target = c.levels.remove(next);
        let ghost there = manifest::level_view(target@);
        assert(there == emptied[next as int]);
        target.append(&mut added);
        assert(manifest::level_view(target@) =~= there + more);
        c.levels.insert(next, target);
        assert(manifest::levels_view(c.levels@) =~= emptied.update(next as int, there + more));
        c.level = next;
        if next < self.next_ids.len() {
            self.next_ids[next] = first + count;
        }
        self.replace_manifest(&c.levels, &mut effects);
        proof {
            assert forall|files: Files| #[trigger]
                compact_laws::is_mergeable(old(self)@, files, was, s) && text::views(contents@)
                    == compact_laws::input_texts(old(self)@.data_dir, files, was) implies {
                let after = disk::run(files, disk::effects_view(effects@));
                &&& soundness::is_catalog(old(self)@.data_dir, after, c@.levels)
                &&& compact_laws::finds_but_deleted(old(self)@.data_dir, after, files, was)
            } by {
                compact_laws::lemma_inputs(old(self)@.data_dir, files, was);
                compact_laws::law_compact_keeps(old(self)@, files, was, s);
            }
        }
        Ok(effects)
    }

    /// What is to be done to replace the manifest.
    fn replace_manifest(&self, levels: &Vec<Vec<ManifestLine>>, effects: &mut Vec<Effect>)
        ensures
            disk::effects_view(final(effects)@) == disk::effects_view(old(effects)@)
                + manifest_effects(self@.data_dir, manifest::levels_view(levels@)),
    {
        let dir = self.data_dir.as_str();
        effects.push(
            Effect::WriteFile {
                path: make_manifest_tmp_path(dir),
                content: render_manifest(levels),
            },
        );
        effects.push(
            Effect::Rename { from: make_manifest_tmp_path(dir), to: make_manifest_path(dir) },
        );
        effects.push(Effect::SyncParent { path: make_manifest_path(dir) });
        assert(disk::effects_view(effects@) =~= disk::effects_view(old(effects)@)
            + manifest_effects(self@.data_dir, manifest::levels_view(levels@)));
    }
}

} // verus!
