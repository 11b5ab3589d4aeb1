//! What holds after any number of puts and deletions, from the first opening of the store on, or
//! from any other state in which its files are its own.

use crate::compact_laws;
use crate::compaction;
use crate::compaction::CompactionView;
use crate::disk;
use crate::disk::Files;
use crate::error::StoreError;
use crate::flush_laws;
use crate::manifest;
use crate::manifest::LineView;
use crate::merge;
use crate::search;
use crate::search::Answer;
use crate::sorted;
use crate::sorted::{InfoView, Pair};
use crate::soundness;
use crate::storage;
use crate::storage::{StoreView, LEVEL_LIMIT, TABLE_CAPACITY};
use crate::table;
use crate::wal;
use vstd::prelude::*;

verus! {

/// One operation on the store.
pub enum Operation {
    Put { key: Seq<char>, value: Seq<char> },
    Delete { key: Seq<char> },
}

impl Operation {
    /// The key that is set or deleted.
    pub open spec fn key(self) -> Seq<char> {
        match self {
            Operation::Put { key, value } => key,
            Operation::Delete { key } => key,
        }
    }

    /// The pair that the operation leaves.
    pub open spec fn pair(self) -> Pair {
        match self {
            Operation::Put { key, value } => wal::put_pair(key, value),
            Operation::Delete { key } => wal::delete_pair(key),
        }
    }

    /// The line of the log that stands for the operation.
    pub open spec fn line(self) -> Seq<char> {
        match self {
            Operation::Put { key, value } => wal::put_line(key, value),
            Operation::Delete { key } => wal::delete_line(key),
        }
    }

    /// Whether the operation can be read back from the log and from a table.
    pub open spec fn is_written(self) -> bool {
        &&& wal::logs(self.line(), self.pair())
        &&& table::reads_back(self.pair())
    }
}

/// The store in memory and its files.
pub struct State {
    pub store: StoreView,
    pub files: Files,
}

impl State {
    /// What a read of a key gives back.
    pub open spec fn answer(self, key: Seq<char>) -> Result<Answer, StoreError> {
        self.store.answer(self.files, key)
    }

    /// Whether a read of a key finds it.
    pub open spec fn finds(self, key: Seq<char>) -> bool {
        self.answer(key) matches Ok(answer) && answer is Ok
    }

    /// The text of the manifest.
    pub open spec fn manifest(self) -> Seq<char> {
        self.files[disk::manifest_path(self.store.data_dir)]
    }

    /// The levels that the manifest lists.
    pub open spec fn levels(self) -> Seq<Seq<LineView>> {
        manifest::manifest_levels(self.manifest())->Ok_0
    }

    /// The state with an empty table in memory.
    pub open spec fn cleared(self) -> State {
        State { store: self.store.cleared(), ..self }
    }

    /// The state after the operation is in memory and in the log.
    pub open spec fn logged(self, op: Operation) -> State {
        State {
            store: self.store.set(op.pair()),
            files: disk::run(
                self.files,
                storage::log_effects(self.store.data_dir, op.line()),
            ),
        }
    }

    /// The state after the table in memory was written out.
    pub open spec fn flushed(self, levels: Seq<Seq<LineView>>) -> State {
        State {
            store: flush_laws::flushed(self.store),
            files: disk::run(self.files, flush_laws::flushing(self.store, levels)),
        }
    }

    /// The state after the tables of a level were merged into these pairs.
    pub open spec fn compacted(self, c: CompactionView, s: Seq<Pair>) -> State {
        State {
            store: compact_laws::compacted(self.store, c, s),
            files: disk::run(self.files, compact_laws::compacting(self.store, c, s)),
        }
    }

    /// Whether all pairs in memory and in the tables are of a kind.
    pub open spec fn holds_only(self, kind: spec_fn(Pair) -> bool) -> bool {
        &&& forall|key: Seq<char>| #[trigger]
            self.store.memtable.contains_key(key) ==> kind((key, self.store.memtable[key]))
        &&& soundness::tables_hold_only(self.store.data_dir, self.files, self.levels(), kind)
    }

    /// What holds between operations: the files are those of the store, the tables of level 0 are
    /// numbered, and all pairs can be read back.
    pub open spec fn is_kept(self) -> bool {
        &&& soundness::is_sound(self.store, self.files, self.levels())
        &&& soundness::is_numbered(self.levels()[0], self.store.next_ids[0] as nat)
        &&& self.holds_only(readable())
    }

    /// What makes sure that tables can be merged: those of all levels are numbered, and the
    /// manifest can hold all keys.
    pub open spec fn can_merge(self) -> bool {
        &&& soundness::are_numbered(self.store.next_ids, self.levels())
        &&& self.holds_only(plain())
    }

    /// The state after the store was opened again.
    pub open spec fn reopened(self) -> State {
        State {
            store: soundness::reopened(self.store.data_dir, self.files)->Ok_0,
            files: disk::run(
                self.files,
                storage::open_effects(self.store.data_dir, false, self.store.next_ids.len()),
            ),
        }
    }
}

/// Pairs that can be read back from a table.
pub open spec fn readable() -> spec_fn(Pair) -> bool {
    |p: Pair| table::reads_back(p)
}

/// Pairs with keys that the manifest can hold.
pub open spec fn plain() -> spec_fn(Pair) -> bool {
    |p: Pair| manifest::is_plain(p.0)
}

/// Pairs that do not say that this key was deleted.
pub open spec fn live_at(key: Seq<char>) -> spec_fn(Pair) -> bool {
    |p: Pair| p.0 == key ==> !p.1.deleted
}

/// Pairs with these keys.
pub open spec fn within(keys: Set<Seq<char>>) -> spec_fn(Pair) -> bool {
    |p: Pair| keys.contains(p.0)
}

/// Whether the levels before the one to be looked at are empty.
pub open spec fn are_empty_before(c: CompactionView) -> bool {
    forall|i: int| 0 <= i < c.level && i < c.levels.len() ==> (#[trigger] c.levels[i]).len() == 0
}

/// The state after a compaction, from the level to be looked at on, if it goes through in so many
/// merges.
pub open spec fn compact_run(st: State, c: CompactionView, merges: nat) -> Option<State>
    decreases merges,
{
    let contents = compact_laws::input_texts(st.store.data_dir, st.files, c);
    if !c.due() {
        Some(st)
    } else if merges == 0 {
        None
    } else {
        match compaction::compact_check(c, st.store.next_ids, contents) {
            Err(e) => None,
            Ok(s) => compact_run(
                st.compacted(c, s),
                CompactionView {
                    level: c.level + 1,
                    levels: compaction::compacted_levels(c, st.store.next_ids, s),
                },
                (merges - 1) as nat,
            ),
        }
    }
}

/// The state after the table in memory was written out, the levels compacted, and the table in
/// memory emptied, if all that goes through.
pub open spec fn flush_run(st: State, merges: nat) -> Option<State> {
    match storage::flush_check(st.store, st.manifest()) {
        Err(e) => None,
        Ok(levels) => {
            let flushed = st.flushed(levels);
            match manifest::manifest_levels(flushed.manifest()) {
                Err(e) => None,
                Ok(levels) => match compact_run(
                    flushed,
                    CompactionView { level: 0, levels },
                    merges,
                ) {
                    None => None,
                    Some(done) => Some(done.cleared()),
                },
            }
        },
    }
}

/// The state after an operation, if it goes through.
pub open spec fn operation_run(st: State, op: Operation, merges: nat) -> Option<State> {
    let logged = st.logged(op);
    if op is Put && logged.store.memtable.len() == TABLE_CAPACITY {
        flush_run(logged, merges)
    } else {
        Some(logged)
    }
}

/// The state after these operations, one after the other, if all go through.
pub open spec fn run(st: State, ops: Seq<Operation>, merges: nat) -> Option<State>
    decreases ops.len(),
{
    if ops.len() == 0 {
        Some(st)
    } else {
        match run(st, ops.drop_last(), merges) {
            None => None,
            Some(before) => operation_run(before, ops.last(), merges),
        }
    }
}

/// Whether no merge of a compaction overwrites a listed table, or makes a table whose key range the
/// manifest cannot hold.
pub open spec fn is_compact_clean(st: State, c: CompactionView, merges: nat) -> bool
    decreases merges,
{
    let contents = compact_laws::input_texts(st.store.data_dir, st.files, c);
    if !c.due() || merges == 0 {
        true
    } else {
        match compaction::compact_check(c, st.store.next_ids, contents) {
            Err(e) => true,
            Ok(s) => {
                &&& is_clean_merge(st, c, s)
                &&& is_compact_clean(
                    st.compacted(c, s),
                    CompactionView {
                        level: c.level + 1,
                        levels: compaction::compacted_levels(c, st.store.next_ids, s),
                    },
                    (merges - 1) as nat,
                )
            },
        }
    }
}

/// Whether a merge into these pairs overwrites no listed table, and the manifest can hold the key
/// ranges of the merged tables.
pub open spec fn is_clean_merge(st: State, c: CompactionView, s: Seq<Pair>) -> bool {
    &&& c.level + 1 < c.levels.len() ==> soundness::is_free(
        c.levels[c.level as int + 1],
        compaction::next_id(c, st.store.next_ids),
        compaction::chunks(s, TABLE_CAPACITY as nat).len(),
    )
    &&& compact_laws::have_plain_ends(s)
}

/// Whether the merges of an operation are clean.
pub open spec fn is_operation_clean(st: State, op: Operation, merges: nat) -> bool {
    let logged = st.logged(op);
    if op is Put && logged.store.memtable.len() == TABLE_CAPACITY {
        match storage::flush_check(logged.store, logged.manifest()) {
            Err(e) => true,
            Ok(levels) => {
                let flushed = logged.flushed(levels);
                match manifest::manifest_levels(flushed.manifest()) {
                    Err(e) => true,
                    Ok(levels) => is_compact_clean(
                        flushed,
                        CompactionView { level: 0, levels },
                        merges,
                    ),
                }
            },
        }
    } else {
        true
    }
}

/// Whether all merges of these operations are clean.
pub open spec fn is_clean(st: State, ops: Seq<Operation>, merges: nat) -> bool
    decreases ops.len(),
{
    ops.len() > 0 ==> {
        &&& is_clean(st, ops.drop_last(), merges)
        &&& run(st, ops.drop_last(), merges) matches Some(before) ==> is_operation_clean(
            before,
            ops.last(),
            merges,
        )
    }
}

/// The state after a store was opened where there was none.
pub open spec fn first_state(dir: Seq<char>, files: Files) -> State {
    State {
        store: soundness::first_store(dir),
        files: disk::run(files, soundness::first_effects(dir)),
    }
}

/// A state with sound files has the levels for which they are sound.
proof fn lemma_levels(st: State, levels: Seq<Seq<LineView>>)
    requires
        soundness::is_sound(st.store, st.files, levels),
    ensures
        st.levels() == levels,
        manifest::manifest_levels(st.manifest()) == Ok::<Seq<Seq<LineView>>, StoreError>(levels),
{
    manifest::law_manifest_round_trip(levels);
}

/// A store that is opened where there is none is in order, tables can be merged, it holds nothing
/// and finds nothing.
pub proof fn law_first_state(
    dir: Seq<char>,
    files: Files,
    kind: spec_fn(Pair) -> bool,
    key: Seq<char>,
)
    ensures
        first_state(dir, files).is_kept(),
        first_state(dir, files).can_merge(),
        first_state(dir, files).levels() == soundness::first_levels(),
        first_state(dir, files).holds_only(kind),
        first_state(dir, files).answer(key) == Ok::<Answer, StoreError>(
            Err(search::not_found(key)),
        ),
{
    soundness::law_first_open(dir, files, key);
    lemma_levels(first_state(dir, files), soundness::first_levels());
}

/// A store that is opened again is in order, with the same files, levels and pairs, and answers
/// every read as before. Tables can be merged if they could before, and no level above 0 has any.
pub proof fn law_reopened_state(st: State, kind: spec_fn(Pair) -> bool)
    requires
        st.is_kept(),
    ensures
        soundness::reopened(st.store.data_dir, st.files) is Ok,
        st.reopened().is_kept(),
        st.reopened().files == st.files,
        st.reopened().levels() == st.levels(),
        st.reopened().store.memtable == st.store.memtable,
        st.reopened().store.next_ids.len() == st.store.next_ids.len(),
        forall|key: Seq<char>| #[trigger] st.reopened().answer(key) == st.answer(key),
        st.holds_only(kind) ==> st.reopened().holds_only(kind),
        st.can_merge() && (forall|i: int|
            0 < i < st.levels().len() ==> (#[trigger] st.levels()[i]).len() == 0)
            ==> st.reopened().can_merge(),
{
    let levels = st.levels();
    let again = st.reopened();
    soundness::law_reopen(st.store, st.files, levels);
    assert(again.files == st.files);
    assert(again.levels() == levels);
    assert forall|key: Seq<char>| #[trigger] again.answer(key) == st.answer(key) by {
        assert(again.store.answer(st.files, key) == st.store.answer(st.files, key));
    }
    if st.can_merge() && (forall|i: int|
        0 < i < levels.len() ==> (#[trigger] levels[i]).len() == 0) {
        assert forall|i: int| 0 <= i < levels.len() implies soundness::is_numbered(
            #[trigger] levels[i],
            again.store.next_ids[i] as nat,
        ) by {
            if i > 0 {
                assert(levels[i].len() == 0);
            }
        }
    }
}

/// An operation that only reaches the log and the table in memory.
proof fn lemma_logged(st: State, op: Operation, kind: spec_fn(Pair) -> bool)
    requires
        st.is_kept(),
        op.is_written(),
    ensures
        st.logged(op).is_kept(),
        st.logged(op).levels() == st.levels(),
        st.holds_only(kind) && kind(op.pair()) ==> st.logged(op).holds_only(kind),
        st.can_merge() && plain()(op.pair()) ==> st.logged(op).can_merge(),
{
    let after = st.logged(op);
    let dir = st.store.data_dir;
    let levels = st.levels();
    soundness::law_log_keeps(st.store, st.files, levels, op.line(), op.pair());
    lemma_levels(after, levels);
    assert forall|other: spec_fn(Pair) -> bool|
        st.holds_only(other) && other(op.pair()) implies #[trigger] after.holds_only(other) by {
        assert forall|i: int, j: int|
            0 <= i < levels.len() && 0 <= j < levels[i].len() implies soundness::holds_only(
            soundness::pairs_in(
                after.files[disk::table_path(dir, i as nat, (#[trigger] levels[i][j]).sst_name)],
            ),
            other,
        ) by {
            disk::lemma_paths_differ(dir, i as nat, levels[i][j].sst_name);
            disk::lemma_run_one(
                st.files,
                storage::log_effects(dir, op.line())[0],
            );
            assert(storage::log_effects(dir, op.line()) =~= seq![
                storage::log_effects(dir, op.line())[0],
            ]);
        }
    }
    assert(readable()(op.pair()));
    assert(after.holds_only(readable()));
    if st.can_merge() && plain()(op.pair()) {
        assert(after.holds_only(plain()));
    }
}

/// The pairs in memory can be written out where they can be read back.
proof fn lemma_memtable(st: State)
    requires
        st.is_kept(),
    ensures
        soundness::is_table(sorted::listing(st.store.memtable)),
        soundness::is_free(st.levels()[0], st.store.next_ids[0] as nat, 1),
{
    let s = sorted::listing(st.store.memtable);
    flush_laws::lemma_memtable_listing(st.store, st.files);
    assert forall|k: int| 0 <= k < s.len() implies table::reads_back(#[trigger] s[k]) by {
        sorted::lemma_sorted_at(s, k);
        assert(st.store.memtable.contains_key(s[k].0));
        assert(readable()((s[k].0, st.store.memtable[s[k].0])));
    }
    table::lemma_table_pairs(s);
    soundness::law_numbered_free(st.levels()[0], st.store.next_ids[0] as nat, 1);
}

proof fn lemma_flushed(st: State, kind: spec_fn(Pair) -> bool)
    requires
        st.is_kept(),
        st.store.next_ids[0] < usize::MAX,
    ensures
        storage::flush_check(st.store, st.manifest()) == Ok::<Seq<Seq<LineView>>, StoreError>(
            st.levels(),
        ),
        st.flushed(st.levels()).cleared().is_kept(),
        st.flushed(st.levels()).levels() == storage::flushed_levels(
            st.levels(),
            st.store.next_ids[0] as nat,
        ),
        manifest::manifest_levels(st.flushed(st.levels()).manifest()) is Ok,
        st.holds_only(kind) ==> st.flushed(st.levels()).cleared().holds_only(kind),
        st.can_merge() ==> st.flushed(st.levels()).cleared().can_merge(),
        forall|key: Seq<char>| #[trigger]
            st.flushed(st.levels()).cleared().answer(key) == st.answer(key),
{
    let levels = st.levels();
    let after = st.flushed(levels).cleared();
    let lv = storage::flushed_levels(levels, st.store.next_ids[0] as nat);
    lemma_memtable(st);
    flush_laws::law_flush_keeps(st.store, st.files, levels);
    flush_laws::law_flush_numbers(st.store, levels);
    lemma_levels(after, lv);
    flush_laws::law_flush_pairs(st.store, st.files, levels, readable());
    if st.holds_only(plain()) {
        flush_laws::law_flush_pairs(st.store, st.files, levels, plain());
    }
    if st.holds_only(kind) {
        flush_laws::law_flush_pairs(st.store, st.files, levels, kind);
    }
    assert forall|key: Seq<char>| #[trigger] after.answer(key) == st.answer(key) by {
        assert(after.store.answer(after.files, key) == st.store.answer(st.files, key));
    }
}

/// What a merge in a kept state is.
proof fn lemma_mergeable(st: State, c: CompactionView) -> (s: Seq<Pair>)
    requires
        st.is_kept(),
        c.levels == st.levels(),
        c.due(),
    ensures
        s == merge::merge_output(compact_laws::inputs_in(st.store.data_dir, st.files, c)),
        is_clean_merge(st, c, s) ==> compact_laws::is_mergeable(st.store, st.files, c, s),
        st.can_merge() ==> is_clean_merge(st, c, s),
        compaction::next_id(c, st.store.next_ids) + compaction::chunks(
            s,
            TABLE_CAPACITY as nat,
        ).len() <= usize::MAX ==> compact_laws::can_compact(st.store, c, s),
        compaction::compact_check(
            c,
            st.store.next_ids,
            compact_laws::input_texts(st.store.data_dir, st.files, c),
        ) is Ok <==> compaction::next_id(c, st.store.next_ids) + compaction::chunks(
            s,
            TABLE_CAPACITY as nat,
        ).len() <= usize::MAX,
        compaction::compact_check(
            c,
            st.store.next_ids,
            compact_laws::input_texts(st.store.data_dir, st.files, c),
        ) matches Ok(t) ==> t == s,
{
    let dir = st.store.data_dir;
    let s = merge::merge_output(compact_laws::inputs_in(dir, st.files, c));
    let size = TABLE_CAPACITY as nat;
    let cs = compaction::chunks(s, size);
    let next = c.level as int + 1;
    soundness::lemma_catalog(st.store, st.files, c.levels);
    compact_laws::lemma_inputs(dir, st.files, c);
    compact_laws::lemma_merged_pairs(dir, st.files, c, readable());
    assert forall|i: int| 0 <= i < s.len() implies table::reads_back(#[trigger] s[i]) by {
        assert(readable()(s[i]));
    }
    if st.can_merge() {
        compact_laws::lemma_merged_pairs(dir, st.files, c, plain());
        compact_laws::law_chunks(s, size);
        assert forall|j: int| 0 <= j < cs.len() implies manifest::is_plain((#[trigger] cs[j])[0].0)
            && manifest::is_plain(cs[j].last().0) by {
            let a = compact_laws::lemma_chunk_within(s, size, j, 0);
            let b = compact_laws::lemma_chunk_within(s, size, j, cs[j].len() - 1);
            assert(plain()(s[a]) && plain()(s[b]));
        }
        if next < c.levels.len() {
            assert(soundness::is_numbered(c.levels[next], st.store.next_ids[next] as nat));
            soundness::law_numbered_free(c.levels[next], st.store.next_ids[next] as nat, cs.len());
        }
    }
    s
}

proof fn lemma_compacted(st: State, c: CompactionView, s: Seq<Pair>, kind: spec_fn(Pair) -> bool)
    requires
        st.is_kept(),
        c.levels == st.levels(),
        c.due(),
        compaction::compact_check(
            c,
            st.store.next_ids,
            compact_laws::input_texts(st.store.data_dir, st.files, c),
        ) == Ok::<Seq<Pair>, StoreError>(s),
        is_clean_merge(st, c, s),
    ensures
        s == merge::merge_output(compact_laws::inputs_in(st.store.data_dir, st.files, c)),
        st.compacted(c, s).is_kept(),
        st.compacted(c, s).levels() == compaction::compacted_levels(c, st.store.next_ids, s),
        st.holds_only(kind) ==> st.compacted(c, s).holds_only(kind),
        st.can_merge() ==> st.compacted(c, s).can_merge(),
        forall|key: Seq<char>|
            (st.holds_only(live_at(key)) || (st.finds(key) && st.store.memtable.len() == 0
                && are_empty_before(c))) ==> #[trigger] st.compacted(c, s).answer(key)
                == st.answer(key),
{
    let dir = st.store.data_dir;
    let after = st.compacted(c, s);
    let lv = compaction::compacted_levels(c, st.store.next_ids, s);
    lemma_mergeable(st, c);
    compact_laws::law_compact_keeps(st.store, st.files, c, s);
    compact_laws::law_compact_sound(st.store, st.files, c, s);
    lemma_levels(after, lv);
    assert(lv[0] == c.levels[0] || lv[0].len() == 0);
    assert(after.store.next_ids[0] == st.store.next_ids[0]);
    compact_laws::law_compact_pairs(st.store, st.files, c, s, readable());
    if st.can_merge() {
        compact_laws::law_compact_numbers(st.store, c, s);
        compact_laws::law_compact_pairs(st.store, st.files, c, s, plain());
    }
    if st.holds_only(kind) {
        compact_laws::law_compact_pairs(st.store, st.files, c, s, kind);
    }
    assert forall|key: Seq<char>|
        st.holds_only(live_at(key)) || (st.finds(key) && st.store.memtable.len() == 0
            && are_empty_before(c)) implies #[trigger] after.answer(key) == st.answer(key) by {
        if st.holds_only(live_at(key)) {
            assert(live_at(key) =~= (|p: Pair| p.0 == key ==> !p.1.deleted));
            compact_laws::lemma_no_reappearance(dir, st.files, c, key);
        } else {
            lemma_levels(st, c.levels);
            flush_laws::lemma_memtable_finite(st.store, st.files);
            assert(!st.store.memtable.contains_key(key));
            compact_laws::lemma_found_stays(dir, st.files, c, 0, key);
        }
        assert(search::disk_answer(dir, after.files, key) == search::disk_answer(
            dir,
            st.files,
            key,
        ));
    }
}

/// A compaction, with the table in memory as good as empty.
proof fn lemma_compact_run(
    st: State,
    c: CompactionView,
    merges: nat,
    kind: spec_fn(Pair) -> bool,
    key: Seq<char>,
)
    requires
        st.cleared().is_kept(),
        c.levels == st.levels(),
        compact_run(st, c, merges) is Some,
        is_compact_clean(st, c, merges),
    ensures
        compact_run(st, c, merges)->0.cleared().is_kept(),
        compact_run(st, c, merges)->0.store.data_dir == st.store.data_dir,
        st.cleared().holds_only(kind) ==> compact_run(st, c, merges)->0.cleared().holds_only(kind),
        st.cleared().can_merge() ==> compact_run(st, c, merges)->0.cleared().can_merge(),
        merges == 0 || st.cleared().holds_only(live_at(key)) || (st.cleared().finds(key)
            && are_empty_before(c)) ==> compact_run(st, c, merges)->0.cleared().answer(key)
            == st.cleared().answer(key),
    decreases merges,
{
    let contents = compact_laws::input_texts(st.store.data_dir, st.files, c);
    if c.due() {
        let s = compaction::compact_check(c, st.store.next_ids, contents)->Ok_0;
        let after = st.compacted(c, s);
        let next = CompactionView {
            level: c.level + 1,
            levels: compaction::compacted_levels(c, st.store.next_ids, s),
        };
        assert(after.cleared() == st.cleared().compacted(c, s));
        assert(are_empty_before(c) ==> are_empty_before(next));
        assert(is_clean_merge(st.cleared(), c, s));
        lemma_compacted(st.cleared(), c, s, kind);
        lemma_compacted(st.cleared(), c, s, live_at(key));
        lemma_compact_run(after, next, (merges - 1) as nat, kind, key);
    }
}

/// Where tables can be merged, every merge is clean.
proof fn lemma_compact_clean(st: State, c: CompactionView, merges: nat)
    requires
        st.cleared().is_kept(),
        st.cleared().can_merge(),
        c.levels == st.levels(),
    ensures
        is_compact_clean(st, c, merges),
    decreases merges,
{
    let kept = st.cleared();
    let contents = compact_laws::input_texts(st.store.data_dir, st.files, c);
    if c.due() && merges > 0 {
        lemma_mergeable(kept, c);
        match compaction::compact_check(c, st.store.next_ids, contents) {
            Err(e) => {},
            Ok(s) => {
                let after = st.compacted(c, s);
                assert(after.cleared() == kept.compacted(c, s));
                assert(is_clean_merge(kept, c, s));
                lemma_compacted(kept, c, s, plain());
                lemma_compact_clean(
                    after,
                    CompactionView {
                        level: c.level + 1,
                        levels: compaction::compacted_levels(c, st.store.next_ids, s),
                    },
                    (merges - 1) as nat,
                );
            },
        }
    }
}

/// What an operation keeps.
proof fn lemma_operation(
    st: State,
    op: Operation,
    merges: nat,
    kind: spec_fn(Pair) -> bool,
    key: Seq<char>,
)
    requires
        st.is_kept(),
        op.is_written(),
        operation_run(st, op, merges) is Some,
        is_operation_clean(st, op, merges),
    ensures
        operation_run(st, op, merges)->0.is_kept(),
        operation_run(st, op, merges)->0.store.data_dir == st.store.data_dir,
        st.holds_only(kind) && kind(op.pair()) ==> operation_run(st, op, merges)->0.holds_only(
            kind,
        ),
        st.can_merge() && plain()(op.pair()) ==> operation_run(st, op, merges)->0.can_merge(),
        merges == 0 || st.logged(op).holds_only(live_at(key)) || st.logged(op).finds(key)
            ==> operation_run(st, op, merges)->0.answer(key) == st.logged(op).answer(key),
{
    let logged = st.logged(op);
    lemma_logged(st, op, kind);
    if op is Put && logged.store.memtable.len() == TABLE_CAPACITY {
        let levels = logged.levels();
        assert(manifest::manifest_levels(logged.manifest()) is Ok) by {
            lemma_levels(logged, levels);
        }
        lemma_flushed(logged, kind);
        lemma_flushed(logged, live_at(key));
        let flushed = logged.flushed(levels);
        let c = CompactionView { level: 0, levels: flushed.levels() };
        assert(flushed.cleared().levels() == flushed.levels());
        lemma_compact_run(flushed, c, merges, kind, key);
        assert(flushed.cleared().answer(key) == logged.answer(key));
    }
}

/// Whether all operations can be read back.
pub open spec fn are_written(ops: Seq<Operation>) -> bool {
    forall|i: int| 0 <= i < ops.len() ==> (#[trigger] ops[i]).is_written()
}

/// Whether the manifest can hold the keys of all operations.
pub open spec fn are_plain(ops: Seq<Operation>) -> bool {
    forall|i: int| 0 <= i < ops.len() ==> manifest::is_plain((#[trigger] ops[i]).key())
}

proof fn lemma_front(ops: Seq<Operation>)
    requires
        ops.len() > 0,
    ensures
        are_written(ops) ==> are_written(ops.drop_last()) && ops.last().is_written(),
        are_plain(ops) ==> are_plain(ops.drop_last()) && plain()(ops.last().pair()),
{
    let front = ops.drop_last();
    let op = ops[ops.len() - 1];
    if are_written(ops) {
        assert forall|i: int| 0 <= i < front.len() implies (#[trigger] front[i]).is_written() by {
            assert(front[i] == ops[i]);
        }
        assert(op.is_written());
    }
    if are_plain(ops) {
        assert forall|i: int| 0 <= i < front.len() implies manifest::is_plain(
            (#[trigger] front[i]).key(),
        ) by {
            assert(front[i] == ops[i]);
        }
        assert(manifest::is_plain(op.key()));
    }
}

/// Operations that go through without a merge go through in the same way where merges are allowed,
/// and are clean.
pub proof fn law_run_without_merges(start: State, ops: Seq<Operation>, merges: nat)
    requires
        run(start, ops, 0) is Some,
    ensures
        run(start, ops, merges) == run(start, ops, 0),
        is_clean(start, ops, merges),
    decreases ops.len(),
{
    if ops.len() > 0 {
        law_run_without_merges(start, ops.drop_last(), merges);
    }
}

/// Where tables can be merged at the start, and the manifest can hold the keys of all operations,
/// they are clean, and tables can be merged at the end.
pub proof fn law_run_clean(start: State, ops: Seq<Operation>, merges: nat)
    requires
        start.is_kept(),
        start.can_merge(),
        are_written(ops),
        are_plain(ops),
    ensures
        is_clean(start, ops, merges),
        run(start, ops, merges) matches Some(st) ==> st.is_kept() && st.can_merge(),
    decreases ops.len(),
{
    if ops.len() > 0 {
        let op = ops.last();
        lemma_front(ops);
        law_run_clean(start, ops.drop_last(), merges);
        if run(start, ops.drop_last(), merges) is Some {
            let st = run(start, ops.drop_last(), merges)->0;
            let logged = st.logged(op);
            lemma_logged(st, op, plain());
            if op is Put && logged.store.memtable.len() == TABLE_CAPACITY
                && logged.store.next_ids[0] < usize::MAX {
                lemma_levels(logged, logged.levels());
                lemma_flushed(logged, plain());
                let flushed = logged.flushed(logged.levels());
                assert(flushed.cleared().levels() == flushed.levels());
                lemma_compact_clean(
                    flushed,
                    CompactionView { level: 0, levels: flushed.levels() },
                    merges,
                );
            }
            if operation_run(st, op, merges) is Some {
                lemma_operation(st, op, merges, plain(), Seq::empty());
            }
        }
    }
}

/// Operations leave the store in order: its files are its own, the tables of level 0 are numbered,
/// and all pairs can be read back. In particular the log leaves what is in memory.
pub proof fn law_run_keeps(
    start: State,
    ops: Seq<Operation>,
    merges: nat,
    kind: spec_fn(Pair) -> bool,
)
    requires
        start.is_kept(),
        are_written(ops),
        is_clean(start, ops, merges),
        run(start, ops, merges) is Some,
    ensures
        ({
            let st = run(start, ops, merges)->0;
            &&& st.is_kept()
            &&& st.store.data_dir == start.store.data_dir
            &&& wal::log_map(st.files[disk::wal_path(st.store.data_dir)]) == Ok::<
                Map<Seq<char>, InfoView>,
                StoreError,
            >(st.store.memtable)
            &&& start.holds_only(kind) && (forall|i: int|
                0 <= i < ops.len() ==> kind((#[trigger] ops[i]).pair())) ==> st.holds_only(kind)
        }),
    decreases ops.len(),
{
    if ops.len() > 0 {
        let front = ops.drop_last();
        let op = ops[ops.len() - 1];
        lemma_front(ops);
        law_run_keeps(start, front, merges, kind);
        lemma_operation(run(start, front, merges)->0, op, merges, kind, Seq::empty());
        if forall|i: int| 0 <= i < ops.len() ==> kind((#[trigger] ops[i]).pair()) {
            assert forall|i: int| 0 <= i < front.len() implies kind(
                (#[trigger] front[i]).pair(),
            ) by {
                assert(front[i] == ops[i]);
            }
            assert(kind(op.pair()));
        }
    }
}

/// After any operations, a store that is opened again holds in memory what it held, has as many
/// levels, answers every read as before, leaves the files as they are, and is in order, so that
/// operations can go on from there.
pub proof fn law_run_restart(start: State, ops: Seq<Operation>, merges: nat)
    requires
        start.is_kept(),
        are_written(ops),
        is_clean(start, ops, merges),
        run(start, ops, merges) is Some,
    ensures
        ({
            let st = run(start, ops, merges)->0;
            let again = st.reopened();
            &&& soundness::reopened(st.store.data_dir, st.files) is Ok
            &&& again.is_kept()
            &&& again.files == st.files
            &&& again.store.memtable == st.store.memtable
            &&& again.store.next_ids.len() == st.store.next_ids.len()
            &&& forall|key: Seq<char>| #[trigger] again.answer(key) == st.answer(key)
        }),
{
    law_run_keeps(start, ops, merges, readable());
    law_reopened_state(run(start, ops, merges)->0, readable());
}

/// What the last operation on a key leaves for a read of it, if there is one.
pub open spec fn left_by(ops: Seq<Operation>, key: Seq<char>) -> Option<Answer>
    decreases ops.len(),
{
    if ops.len() == 0 {
        None
    } else {
        match ops.last() {
            Operation::Put { key: k, value } => if k == key {
                Some(Ok(value))
            } else {
                left_by(ops.drop_last(), key)
            },
            Operation::Delete { key: k } => if k == key {
                Some(Err(search::not_found(key)))
            } else {
                left_by(ops.drop_last(), key)
            },
        }
    }
}

/// What a read of a key is to give back after these operations: what the last operation on the key
/// leaves, and if there is none, what it gave back before.
pub open spec fn expected(start: State, ops: Seq<Operation>, key: Seq<char>) -> Result<
    Answer,
    StoreError,
> {
    match left_by(ops, key) {
        Some(answer) => Ok(answer),
        None => start.answer(key),
    }
}

/// Whether a key is found.
pub open spec fn is_found(answer: Result<Answer, StoreError>) -> bool {
    answer matches Ok(answer) && answer is Ok
}

/// Whether nothing says that the key was deleted: no pair at the start, and no operation.
pub open spec fn is_never_deleted(start: State, ops: Seq<Operation>, key: Seq<char>) -> bool {
    &&& start.holds_only(live_at(key))
    &&& forall|i: int| 0 <= i < ops.len() ==> #[trigger] ops[i] != (Operation::Delete { key })
}

/// However often the table in memory is written out, a read of any key gives back what was last
/// put there, or that it was deleted, or what it gave back before. Where tables are merged, this
/// holds of every key that is to be found, and of every key that was never deleted.
pub proof fn law_run_answers(start: State, ops: Seq<Operation>, merges: nat, key: Seq<char>)
    requires
        start.is_kept(),
        are_written(ops),
        is_clean(start, ops, merges),
        run(start, ops, merges) is Some,
        run(start, ops, 0) is Some || is_found(expected(start, ops, key)) || is_never_deleted(
            start,
            ops,
            key,
        ),
    ensures
        run(start, ops, merges)->0.answer(key) == expected(start, ops, key),
{
    if run(start, ops, 0) is Some {
        law_run_without_merges(start, ops, merges);
        law_run_without_merges(start, ops, 0);
        lemma_run_answers(start, ops, 0, key);
    } else {
        lemma_run_answers(start, ops, merges, key);
    }
}

proof fn lemma_run_answers(start: State, ops: Seq<Operation>, merges: nat, key: Seq<char>)
    requires
        start.is_kept(),
        are_written(ops),
        is_clean(start, ops, merges),
        run(start, ops, merges) is Some,
        merges == 0 || is_found(expected(start, ops, key)) || is_never_deleted(start, ops, key),
    ensures
        run(start, ops, merges)->0.answer(key) == expected(start, ops, key),
    decreases ops.len(),
{
    if ops.len() > 0 {
        let front = ops.drop_last();
        let op = ops[ops.len() - 1];
        let before = run(start, front, merges)->0;
        lemma_front(ops);
        law_run_keeps(start, front, merges, live_at(key));
        if is_never_deleted(start, ops, key) {
            assert forall|i: int| 0 <= i < ops.len() implies live_at(key)(
                (#[trigger] ops[i]).pair(),
            ) by {
                assert(ops[i] != (Operation::Delete { key }));
            }
            assert forall|i: int| 0 <= i < front.len() implies live_at(key)(
                (#[trigger] front[i]).pair(),
            ) && front[i] != (Operation::Delete { key }) by {
                assert(front[i] == ops[i]);
            }
            assert(live_at(key)(op.pair()));
            assert(before.holds_only(live_at(key)));
        }
        if op.key() != key {
            lemma_run_answers(start, front, merges, key);
        }
        lemma_logged(before, op, live_at(key));
        lemma_operation(before, op, merges, live_at(key), key);
        match op {
            Operation::Put { key: k, value } => {
                soundness::law_put_get(before.store, before.files, k, value, key);
            },
            Operation::Delete { key: k } => {
                soundness::law_delete_get(before.store, before.files, k, key);
            },
        }
    }
}

/// The state after several runs of operations, with the store opened again before each of them.
pub open spec fn runs(start: State, sessions: Seq<Seq<Operation>>, merges: nat) -> Option<State>
    decreases sessions.len(),
{
    if sessions.len() == 0 {
        Some(start)
    } else {
        match runs(start, sessions.drop_last(), merges) {
            None => None,
            Some(before) => run(before.reopened(), sessions.last(), merges),
        }
    }
}

/// Whether all merges of several runs are clean.
pub open spec fn are_clean(start: State, sessions: Seq<Seq<Operation>>, merges: nat) -> bool
    decreases sessions.len(),
{
    sessions.len() > 0 ==> {
        &&& are_clean(start, sessions.drop_last(), merges)
        &&& runs(start, sessions.drop_last(), merges) matches Some(before) ==> is_clean(
            before.reopened(),
            sessions.last(),
            merges,
        )
    }
}

/// What a read of a key is to give back after several runs.
pub open spec fn expected_of(start: State, sessions: Seq<Seq<Operation>>, key: Seq<char>) -> Result<
    Answer,
    StoreError,
>
    decreases sessions.len(),
{
    if sessions.len() == 0 {
        start.answer(key)
    } else {
        match left_by(sessions.last(), key) {
            Some(answer) => Ok(answer),
            None => expected_of(start, sessions.drop_last(), key),
        }
    }
}

/// However often the store is opened again between operations, it stays in order, and a read of any
/// key gives back what the last operation on it left. Where tables are merged, this holds of every
/// key that is to be found.
pub proof fn law_runs_answer(
    start: State,
    sessions: Seq<Seq<Operation>>,
    merges: nat,
    key: Seq<char>,
)
    requires
        start.is_kept(),
        forall|i: int| 0 <= i < sessions.len() ==> are_written(#[trigger] sessions[i]),
        are_clean(start, sessions, merges),
        runs(start, sessions, merges) is Some,
    ensures
        runs(start, sessions, merges)->0.is_kept(),
        merges == 0 || is_found(expected_of(start, sessions, key)) ==> runs(
            start,
            sessions,
            merges,
        )->0.answer(key) == expected_of(start, sessions, key),
    decreases sessions.len(),
{
    if sessions.len() > 0 {
        let front = sessions.drop_last();
        let ops = sessions[sessions.len() - 1];
        assert forall|i: int| 0 <= i < front.len() implies are_written(#[trigger] front[i]) by {
            assert(front[i] == sessions[i]);
        }
        assert(are_written(ops));
        law_runs_answer(start, front, merges, key);
        let before = runs(start, front, merges)->0;
        law_reopened_state(before, readable());
        law_run_keeps(before.reopened(), ops, merges, readable());
        assert(before.reopened().answer(key) == before.answer(key));
        if merges == 0 || is_found(expected_of(start, sessions, key)) {
            law_run_answers(before.reopened(), ops, merges, key);
        }
    }
}

/// A put gives its key the value, also where the table in memory is written out and tables are
/// merged. The answer for any other key is as it was if no tables are merged, if the key was found,
/// or if nothing says that it was deleted.
pub proof fn law_put_state(
    st: State,
    key: Seq<char>,
    value: Seq<char>,
    merges: nat,
    other: Seq<char>,
)
    requires
        st.is_kept(),
        (Operation::Put { key, value }).is_written(),
        is_operation_clean(st, Operation::Put { key, value }, merges),
        operation_run(st, Operation::Put { key, value }, merges) is Some,
    ensures
        ({
            let op = Operation::Put { key, value };
            let after = operation_run(st, op, merges)->0;
            &&& after.is_kept()
            &&& after.answer(key) == Ok::<Answer, StoreError>(Ok(value))
            &&& other != key && (operation_run(st, op, 0) is Some || st.finds(other)
                || st.holds_only(live_at(other))) ==> after.answer(other) == st.answer(other)
        }),
{
    let op = Operation::Put { key, value };
    soundness::law_put_get(st.store, st.files, key, value, other);
    lemma_operation(st, op, merges, readable(), key);
    if operation_run(st, op, 0) is Some {
        assert(operation_run(st, op, 0) == operation_run(st, op, merges));
        lemma_operation(st, op, 0, readable(), other);
    }
    if other != key {
        lemma_logged(st, op, live_at(other));
        lemma_operation(st, op, merges, live_at(other), other);
    }
}

/// How many keys the tables that a level may have without being compacted can hold.
pub open spec fn small() -> nat {
    ((LEVEL_LIMIT - 1) * TABLE_CAPACITY) as nat
}

/// How many numbers so many operations use up on a level at most.
pub open spec fn most(n: nat) -> nat {
    ((LEVEL_LIMIT - 1) * n) as nat
}

proof fn lemma_most(n: nat)
    ensures
        most(n + 1) == most(n) + LEVEL_LIMIT - 1,
{
    assert((LEVEL_LIMIT - 1) * (n + 1) == (LEVEL_LIMIT - 1) * n + (LEVEL_LIMIT - 1))
        by (nonlinear_arith);
    assert((LEVEL_LIMIT - 1) * n >= 0) by (nonlinear_arith)
        requires
            n >= 0,
            LEVEL_LIMIT - 1 >= 0,
    ;
}

/// Whether after so many operations the numbers and levels are few.
pub open spec fn is_small(st: State, n: nat) -> bool {
    &&& st.levels().len() <= n + 1
    &&& forall|i: int|
        0 <= i < st.store.next_ids.len() ==> #[trigger] st.store.next_ids[i] <= most(n)
}

/// Ascending pairs with these keys are no more than the keys.
proof fn lemma_within(s: Seq<Pair>, keys: Set<Seq<char>>)
    requires
        sorted::is_sorted(s),
        soundness::holds_only(s, within(keys)),
        keys.finite(),
    ensures
        s.len() <= keys.len(),
{
    let m = sorted::first_wins(s);
    sorted::lemma_sorted_len(s);
    assert forall|k: Seq<char>| m.dom().contains(k) implies keys.contains(k) by {
        sorted::lemma_first_wins_dom(s, k);
        let i = choose|i: int| 0 <= i < s.len() && (#[trigger] s[i]).0 == k;
        assert(within(keys)(s[i]));
    }
    vstd::set_lib::lemma_len_subset(m.dom(), keys);
}

/// A merge of so few keys makes few tables.
proof fn lemma_few_chunks(st: State, c: CompactionView, keys: Set<Seq<char>>)
    requires
        st.is_kept(),
        st.holds_only(within(keys)),
        keys.finite(),
        keys.len() <= small(),
        c.levels == st.levels(),
        c.due(),
    ensures
        ({
            let s = merge::merge_output(
                compact_laws::inputs_in(st.store.data_dir, st.files, c),
            );
            &&& s.len() <= small()
            &&& compaction::chunks(s, TABLE_CAPACITY as nat).len() <= LEVEL_LIMIT - 1
        }),
{
    let dir = st.store.data_dir;
    let tables = compact_laws::inputs_in(dir, st.files, c);
    let s = merge::merge_output(tables);
    let size = TABLE_CAPACITY as nat;
    let n = compaction::chunks(s, size).len();
    compact_laws::lemma_merged_pairs(dir, st.files, c, within(keys));
    compact_laws::lemma_inputs(dir, st.files, c);
    compact_laws::lemma_merge_output(tables, Seq::empty());
    lemma_within(s, keys);
    compact_laws::law_chunk_count(s, size);
    if n >= LEVEL_LIMIT {
        assert((n - 1) * size >= (LEVEL_LIMIT - 1) * size) by (nonlinear_arith)
            requires
                n >= LEVEL_LIMIT,
        ;
    }
}

/// A compaction of so few keys goes through in as many merges as there are levels.
proof fn lemma_compact_returns(
    st: State,
    c: CompactionView,
    merges: nat,
    keys: Set<Seq<char>>,
    n: nat,
)
    requires
        st.cleared().is_kept(),
        st.cleared().can_merge(),
        st.cleared().holds_only(within(keys)),
        keys.finite(),
        keys.len() <= small(),
        c.levels == st.levels(),
        c.level <= c.levels.len(),
        merges + c.level >= c.levels.len(),
        c.levels.len() <= n + 1,
        most(n + 1) <= usize::MAX,
        forall|i: int|
            0 <= i < c.levels.len() ==> #[trigger] st.store.next_ids[i] <= most(n + 1),
        forall|i: int|
            c.level < i < c.levels.len() ==> #[trigger] st.store.next_ids[i] <= most(n),
    ensures
        compact_run(st, c, merges) is Some,
        is_small(compact_run(st, c, merges)->0, n + 1),
    decreases merges,
{
    if c.due() {
        let kept = st.cleared();
        let s = lemma_mergeable(kept, c);
        lemma_few_chunks(kept, c, keys);
        let ids = st.store.next_ids;
        let next = c.level as int + 1;
        assert(compaction::next_id(c, ids) <= most(n));
        lemma_most(n);
        assert(is_clean_merge(kept, c, s));
        lemma_compacted(kept, c, s, within(keys));
        let after = st.compacted(c, s);
        let lv = compaction::compacted_levels(c, ids, s);
        let d = CompactionView { level: c.level + 1, levels: lv };
        assert(after.cleared() == kept.compacted(c, s));
        assert(after.levels() == lv);
        let new_ids = compaction::compacted_ids(c, ids, s);
        assert(new_ids.len() == lv.len());
        assert forall|i: int| 0 <= i < lv.len() implies #[trigger] new_ids[i] <= most(n + 1) by {
            if i != next {
                assert(ids[i] <= most(n + 1));
            }
        }
        if next < c.levels.len() {
            assert forall|i: int| d.level < i < lv.len() implies #[trigger] new_ids[i] <= most(n) by {
                assert(ids[i] <= most(n));
            }
            lemma_compact_returns(after, d, (merges - 1) as nat, keys, n);
        } else {
            compact_laws::law_compact_ends(c, ids, s);
            assert(!d.due());
        }
    }
}

/// Where the operations, and what is there at the start, concern no more keys than the tables that
/// a level may have without being compacted can hold, and the numbers are not used up, all
/// operations go through. The count `n` stands for what was done before the start.
pub proof fn law_run_returns(
    start: State,
    n: nat,
    ops: Seq<Operation>,
    merges: nat,
    keys: Set<Seq<char>>,
)
    requires
        start.is_kept(),
        start.can_merge(),
        start.holds_only(within(keys)),
        is_small(start, n),
        are_written(ops),
        are_plain(ops),
        keys.finite(),
        keys.len() <= small(),
        forall|i: int| 0 <= i < ops.len() ==> keys.contains((#[trigger] ops[i]).key()),
        most(n + ops.len()) <= usize::MAX,
        merges >= n + ops.len(),
    ensures
        run(start, ops, merges) is Some,
        is_small(run(start, ops, merges)->0, n + ops.len()),
        run(start, ops, merges)->0.holds_only(within(keys)),
    decreases ops.len(),
{
    if ops.len() > 0 {
        let front = ops.drop_last();
        let op = ops[ops.len() - 1];
        let m = n + front.len();
        assert forall|i: int| 0 <= i < front.len() implies keys.contains(
            (#[trigger] front[i]).key(),
        ) by {
            assert(front[i] == ops[i]);
        }
        assert(n + ops.len() == m + 1);
        lemma_front(ops);
        lemma_most(m);
        law_run_returns(start, n, front, merges, keys);
        law_run_clean(start, front, merges);
        law_run_clean(start, ops, merges);
        let before = run(start, front, merges)->0;
        assert(keys.contains(op.key()));
        assert(within(keys)(op.pair()));
        let logged = before.logged(op);
        lemma_logged(before, op, within(keys));
        if op is Put && logged.store.memtable.len() == TABLE_CAPACITY {
            let levels = logged.levels();
            lemma_levels(logged, levels);
            assert(logged.store.next_ids[0] <= most(m));
            lemma_flushed(logged, within(keys));
            let flushed = logged.flushed(levels);
            let lv = flushed.levels();
            let ids = flushed.store.next_ids;
            assert forall|i: int| 0 <= i < lv.len() implies {
                &&& #[trigger] ids[i] <= most(m + 1)
                &&& i > 0 ==> ids[i] <= most(m)
            } by {
                assert(logged.store.next_ids[i] <= most(m));
            }
            assert(flushed.cleared().levels() == lv);
            let c = CompactionView { level: 0, levels: lv };
            lemma_compact_returns(flushed, c, merges, keys, m);
            let done = compact_run(flushed, c, merges)->0;
            assert(done.cleared().levels() == done.levels());
        }
        lemma_operation(before, op, merges, within(keys), Seq::empty());
    }
}

/// Where so few keys are put since the store was first opened, and none is deleted, all puts go
/// through, and a read of any key gives back what was last put there, or that it is not found.
pub proof fn law_run_puts(
    dir: Seq<char>,
    files: Files,
    ops: Seq<Operation>,
    merges: nat,
    keys: Set<Seq<char>>,
    key: Seq<char>,
)
    requires
        are_written(ops),
        are_plain(ops),
        forall|i: int| 0 <= i < ops.len() ==> #[trigger] ops[i] is Put,
        keys.finite(),
        keys.len() <= small(),
        forall|i: int| 0 <= i < ops.len() ==> keys.contains((#[trigger] ops[i]).key()),
        most(ops.len()) <= usize::MAX,
        merges >= ops.len(),
    ensures
        run(first_state(dir, files), ops, merges) is Some,
        run(first_state(dir, files), ops, merges)->0.answer(key) == Ok::<Answer, StoreError>(
            match left_by(ops, key) {
                Some(answer) => answer,
                None => Err(search::not_found(key)),
            },
        ),
{
    let start = first_state(dir, files);
    law_first_state(dir, files, within(keys), key);
    law_first_state(dir, files, live_at(key), key);
    law_run_returns(start, 0, ops, merges, keys);
    law_run_clean(start, ops, merges);
    assert(is_never_deleted(start, ops, key)) by {
        assert forall|i: int| 0 <= i < ops.len() implies #[trigger] ops[i]
            != (Operation::Delete { key }) by {
            assert(ops[i] is Put);
        }
    }
    law_run_answers(start, ops, merges, key);
}

} // verus!
