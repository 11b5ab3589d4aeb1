//! Compaction: the tables of a level are merged into tables of the next.

use crate::disk;
use crate::disk::{make_table_path, Effect, EffectView};
use crate::error::StoreError;
use crate::manifest;
use crate::manifest::{make_table_name, LineView, ManifestLine};
use crate::merge;
use crate::sorted::Pair;
use crate::storage;
use crate::storage::{Step, LEVEL_LIMIT, TABLE_CAPACITY};
use crate::table;
use crate::table::{read_table, Entry, Info};
use crate::text;
use crate::text::add_line;
use vstd::prelude::*;

verus! {

/// A compaction under way: the level that is to be looked at, and the tables of all levels.
pub struct Compaction {
    pub level: usize,
    pub levels: Vec<Vec<ManifestLine>>,
}

/// What a `Compaction` holds.
pub struct CompactionView {
    pub level: nat,
    pub levels: Seq<Seq<LineView>>,
}

impl View for Compaction {
    type V = CompactionView;

    open spec fn view(&self) -> CompactionView {
        CompactionView { level: self.level as nat, levels: manifest::levels_view(self.levels@) }
    }
}

impl CompactionView {
    /// Whether the level has so many tables that they are to be merged.
    pub open spec fn due(self) -> bool {
        self.level < self.levels.len() && self.levels[self.level as int].len() >= LEVEL_LIMIT
    }

    /// The tables to be merged, newest first.
    pub open spec fn inputs(self, dir: Seq<char>) -> Seq<Seq<char>> {
        let ls = self.levels[self.level as int];
        Seq::new(
            ls.len(),
            |j: int| disk::table_path(dir, self.level, ls[ls.len() - 1 - j].sst_name),
        )
    }
}

/// The pairs of tables with these texts, or what is wrong with the first that has a wrong line.
pub open spec fn texts_pairs(contents: Seq<Seq<char>>) -> Result<Seq<Seq<Pair>>, StoreError>
    decreases contents.len(),
{
    if contents.len() == 0 {
        Ok(Seq::empty())
    } else {
        match (texts_pairs(contents.drop_last()), table::table_pairs(contents.last())) {
            (Err(e), _) => Err(e),
            (Ok(_), Err(e)) => Err(e),
            (Ok(tables), Ok(s)) => Ok(tables.push(s)),
        }
    }
}

/// A sequence cut into pieces of this size, the last of which may be smaller.
pub open spec fn chunks(s: Seq<Pair>, size: nat) -> Seq<Seq<Pair>>
    decreases s.len(),
{
    if s.len() == 0 || size == 0 {
        Seq::empty()
    } else if s.len() <= size {
        seq![s]
    } else {
        seq![s.take(size as int)] + chunks(s.skip(size as int), size)
    }
}

/// The entry of the manifest for a table with these pairs.
pub open spec fn chunk_line(chunk: Seq<Pair>, id: nat) -> LineView {
    LineView {
        start_key: chunk[0].0,
        end_key: chunk.last().0,
        sst_name: manifest::table_name(id),
    }
}

/// The entries of the manifest for these tables, numbered from `first` on.
pub open spec fn chunk_lines(cs: Seq<Seq<Pair>>, first: nat) -> Seq<LineView> {
    Seq::new(cs.len(), |j: int| chunk_line(cs[j], (first + j) as nat))
}

/// These tables are written, numbered from `first` on.
pub open spec fn chunk_effects(
    dir: Seq<char>,
    level: nat,
    cs: Seq<Seq<Pair>>,
    first: nat,
) -> Seq<EffectView>
    decreases cs.len(),
{
    if cs.len() == 0 {
        Seq::empty()
    } else {
        chunk_effects(dir, level, cs.drop_last(), first) + storage::table_effects(
            dir,
            level,
            (first + cs.len() - 1) as nat,
            cs.last(),
        )
    }
}

/// These tables are removed.
pub open spec fn remove_effects(dir: Seq<char>, level: nat, ls: Seq<LineView>) -> Seq<EffectView> {
    Seq::new(
        ls.len(),
        |j: int| EffectView::Remove { path: disk::table_path(dir, level, ls[j].sst_name) },
    )
}

/// Whether the tables can be merged, with this many next numbers: the merged pairs, if they can.
pub open spec fn compact_check(
    c: CompactionView,
    next_ids: Seq<usize>,
    contents: Seq<Seq<char>>,
) -> Result<Seq<Pair>, StoreError> {
    let next = c.level + 1;
    match texts_pairs(contents) {
        Err(e) => Err(e),
        Ok(tables) => {
            let s = merge::merge_output(tables);
            if (next_ids.len() < next && s.len() > 0) || (next_ids.len() > next && c.levels.len()
                <= next) {
                Err(StoreError::NoLevel)
            } else if next_id(c, next_ids) + chunks(s, TABLE_CAPACITY as nat).len() > usize::MAX {
                Err(StoreError::OutOfNumbers)
            } else {
                Ok(s)
            }
        },
    }
}

/// Whether the next level is a new one.
pub open spec fn opens_level(c: CompactionView, next_ids: Seq<usize>) -> bool {
    next_ids.len() <= c.level + 1
}

/// The number of the first merged table.
pub open spec fn next_id(c: CompactionView, next_ids: Seq<usize>) -> nat {
    if opens_level(c, next_ids) {
        0
    } else {
        next_ids[c.level as int + 1] as nat
    }
}

/// The next numbers after the merge.
pub open spec fn compacted_ids(
    c: CompactionView,
    next_ids: Seq<usize>,
    s: Seq<Pair>,
) -> Seq<usize> {
    let base = if opens_level(c, next_ids) {
        next_ids.push(0)
    } else {
        next_ids
    };
    let next = c.level as int + 1;
    if next < base.len() {
        base.update(
            next,
            (next_id(c, next_ids) + chunks(s, TABLE_CAPACITY as nat).len()) as usize,
        )
    } else {
        base
    }
}

/// The levels after the merge: the level is empty, and the merged tables are the newest of the
/// next.
pub open spec fn compacted_levels(
    c: CompactionView,
    next_ids: Seq<usize>,
    s: Seq<Pair>,
) -> Seq<Seq<LineView>> {
    let base = if opens_level(c, next_ids) {
        c.levels.push(Seq::empty())
    } else {
        c.levels
    };
    let next = c.level as int + 1;
    let added = chunk_lines(chunks(s, TABLE_CAPACITY as nat), next_id(c, next_ids));
    base.update(c.level as int, Seq::empty()).update(next, base[next] + added)
}

/// What is done to the files in the merge: the directory of a new level, the merged tables, the
/// tables that they stand for are removed, and the manifest is replaced.
pub open spec fn compact_effects(
    dir: Seq<char>,
    c: CompactionView,
    next_ids: Seq<usize>,
    s: Seq<Pair>,
) -> Seq<EffectView> {
    let start = if opens_level(c, next_ids) {
        seq![EffectView::CreateDir { path: disk::level_path(dir, next_ids.len()) }]
    } else {
        Seq::empty()
    };
    start + chunk_effects(
        dir,
        c.level + 1,
        chunks(s, TABLE_CAPACITY as nat),
        next_id(c, next_ids),
    ) + remove_effects(dir, c.level, c.levels[c.level as int]) + storage::manifest_effects(
        dir,
        compacted_levels(c, next_ids, s),
    )
}

impl Compaction {
    /// Whether the level has so many tables that they are to be merged.
    pub fn due(&self) -> (r: bool)
        ensures
            r == self@.due(),
            r <==> self.level < self.levels@.len() && self.levels@[self.level as int]@.len() >= 5,
    {
        if self.level >= self.levels.len() {
            return false;
        }
        assert(self@.levels[self.level as int].len() == self.levels@[self.level as int]@.len());
        self.levels[self.level].len() >= LEVEL_LIMIT
    }

    /// What is to be done next: to merge the tables of the level, if they are too many, and else
    /// to empty the table in memory.
    pub fn step(&self) -> (r: Step)
        ensures
            r == if self@.due() {
                Step::Compact
            } else {
                Step::Clear
            },
    {
        if self.due() {
            Step::Compact
        } else {
            Step::Clear
        }
    }

    /// The tables to be merged, newest first.
    pub fn inputs(&self, dir: &str) -> (r: Vec<String>)
        requires
            self@.level < self@.levels.len(),
        ensures
            text::views(r@) == self@.inputs(dir@),
            r@.len() == self.levels@[self.level as int]@.len(),
            forall|j: int|
                0 <= j < r@.len() ==> (#[trigger] r@[j])@ == disk::table_path(
                    dir@,
                    self.level as nat,
                    self.levels@[self.level as int]@[r@.len() - 1 - j].sst_name@,
                ),
    {
        let level = &self.levels[self.level];
        let n = level.len();
        let ghost ls = self@.levels[self.level as int];
        assert(ls == manifest::level_view(level@));
        let mut r: Vec<String> = Vec::new();
        while r.len() < n
            invariant
                r@.len() <= n,
                n == level@.len(),
                ls == manifest::level_view(level@),
                text::views(r@) == Seq::new(
                    r@.len(),
                    |j: int|
                        disk::table_path(dir@, self.level as nat, ls[ls.len() - 1 - j].sst_name),
                ),
            decreases n - r.len(),
        {
            let ghost before = text::views(r@);
            let l = &level[n - 1 - r.len()];
            assert(ls[n - 1 - r@.len()] == l@);
            let path = make_table_path(dir, self.level, l.sst_name.as_str());
            r.push(path);
            proof {
                assert(text::views(r@) =~= before.push(path@));
                assert(text::views(r@) =~= Seq::new(
                    r@.len(),
                    |j: int|
                        disk::table_path(dir@, self.level as nat, ls[ls.len() - 1 - j].sst_name),
                ));
            }
        }
        assert(text::views(r@) =~= self@.inputs(dir@));
        assert forall|j: int| 0 <= j < r@.len() implies (#[trigger] r@[j])@ == disk::table_path(
            dir@,
            self.level as nat,
            self.levels@[self.level as int]@[r@.len() - 1 - j].sst_name@,
        ) by {
            assert(text::views(r@)[j] == r@[j]@);
            assert(ls[r@.len() - 1 - j] == level@[r@.len() - 1 - j]@);
        }
        r
    }
}

/// Reads the pairs of tables with these texts.
pub fn read_tables(contents: &Vec<String>) -> (r: Result<Vec<Vec<(String, Info)>>, StoreError>)
    ensures
        match r {
            Ok(tables) => texts_pairs(text::views(contents@)) == Ok::<Seq<Seq<Pair>>, StoreError>(
                merge::tables_view(tables@),
            ),
            Err(e) => texts_pairs(text::views(contents@)) == Err::<Seq<Seq<Pair>>, StoreError>(e),
        },
{
    let ghost cs = text::views(contents@);
    let mut tables: Vec<Vec<(String, Info)>> = Vec::new();
    let mut i: usize = 0;
    assert(cs.take(0) =~= Seq::empty());
    assert(merge::tables_view(tables@) =~= Seq::empty());
    while i < contents.len()
        invariant
            i <= contents@.len(),
            cs == text::views(contents@),
            texts_pairs(cs.take(i as int)) == Ok::<Seq<Seq<Pair>>, StoreError>(
                merge::tables_view(tables@),
            ),
        decreases contents.len() - i,
    {
        proof {
            assert(cs[i as int] == contents@[i as int]@);
            assert(cs.take(i + 1).drop_last() =~= cs.take(i as int));
            assert(cs.take(i + 1).last() == contents@[i as int]@);
        }
        match read_table(contents[i].as_str()) {
            Err(e) => {
                proof {
                    lemma_texts_error(cs, i + 1, e);
                }
                return Err(e);
            },
            Ok(t) => {
                let ghost before = merge::tables_view(tables@);
                tables.push(t);
                assert(merge::tables_view(tables@) =~= before.push(table::pairs(t@)));
            },
        }
        i += 1;
    }
    assert(cs.take(i as int) =~= cs);
    Ok(tables)
}

proof fn lemma_texts_error(cs: Seq<Seq<char>>, n: int, e: StoreError)
    requires
        0 <= n <= cs.len(),
        texts_pairs(cs.take(n)) == Err::<Seq<Seq<Pair>>, StoreError>(e),
    ensures
        texts_pairs(cs) == Err::<Seq<Seq<Pair>>, StoreError>(e),
    decreases cs.len() - n,
{
    if n == cs.len() {
        assert(cs.take(n) =~= cs);
    } else {
        assert(cs.take(n + 1).drop_last() =~= cs.take(n));
        lemma_texts_error(cs, n + 1, e);
    }
}

/// The text of the table that holds the pairs from one index up to another.
fn render_table(v: &Vec<(String, Info)>, from: usize, to: usize) -> (r: String)
    requires
        from <= to <= v@.len(),
    ensures
        r@ == table::table_text(table::pairs(v@).subrange(from as int, to as int)),
        forall|i: int| from <= i < to ==> table::reads_back(#[trigger] table::pairs(v@)[i]),
{
    let ghost s = table::pairs(v@);
    let mut r: String = String::new();
    let mut i: usize = from;
    assert(s.subrange(from as int, from as int) =~= Seq::empty());
    assert(Seq::<Pair>::empty().map_values(|p: Pair| table::pair_line(p)) =~= Seq::empty());
    while i < to
        invariant
            from <= i <= to <= v@.len(),
            s == table::pairs(v@),
            r@ == table::table_text(s.subrange(from as int, i as int)),
            forall|j: int| from <= j < i ==> table::reads_back(#[trigger] s[j]),
        decreases to - i,
    {
        let item = &v[i];
        let line = Entry::new(item.0.clone(), item.1.clone()).to_string();
        add_line(&mut r, line.as_str());
        proof {
            assert(s[i as int] == (item.0@, item.1@));
            table::lemma_table_text_push(s.subrange(from as int, i as int), s[i as int]);
            assert(s.subrange(from as int, i as int).push(s[i as int]) =~= s.subrange(
                from as int,
                i + 1,
            ));
        }
        i += 1;
    }
    r
}

/// Cuts the merged pairs into tables of the level, numbered from `first` on: what is to be done
/// to the files, and the entries of the manifest. Nothing where the numbers do not suffice.
pub fn write_chunks(dir: &str, level: usize, v: &Vec<(String, Info)>, first: usize) -> (r: Option<
    (Vec<Effect>, Vec<ManifestLine>),
>)
    ensures
        match r {
            Some((effects, added)) => {
                let cs = chunks(table::pairs(v@), TABLE_CAPACITY as nat);
                &&& first + cs.len() <= usize::MAX
                &&& disk::effects_view(effects@) == chunk_effects(
                    dir@,
                    level as nat,
                    cs,
                    first as nat,
                )
                &&& manifest::level_view(added@) == chunk_lines(cs, first as nat)
                &&& forall|i: int|
                    0 <= i < v@.len() ==> table::reads_back(#[trigger] table::pairs(v@)[i])
            },
            None => first + chunks(table::pairs(v@), TABLE_CAPACITY as nat).len() > usize::MAX,
        },
{
    let ghost s = table::pairs(v@);
    let ghost cs = chunks(s, TABLE_CAPACITY as nat);
    let ghost mut done: Seq<Seq<Pair>> = Seq::empty();
    let mut effects: Vec<Effect> = Vec::new();
    let mut added: Vec<ManifestLine> = Vec::new();
    let mut id: usize = first;
    let mut pos: usize = 0;
    proof {
        assert(s.skip(0) =~= s);
        assert(done + cs =~= cs);
        assert(disk::effects_view(effects@) =~= Seq::empty());
        assert(manifest::level_view(added@) =~= chunk_lines(done, first as nat));
    }
    while pos < v.len()
        invariant
            pos <= v@.len(),
            s == table::pairs(v@),
            cs == chunks(s, TABLE_CAPACITY as nat),
            cs == done + chunks(s.skip(pos as int), TABLE_CAPACITY as nat),
            id == first + done.len(),
            disk::effects_view(effects@) == chunk_effects(dir@, level as nat, done, first as nat),
            manifest::level_view(added@) == chunk_lines(done, first as nat),
            forall|i: int| 0 <= i < pos ==> table::reads_back(#[trigger] s[i]),
        decreases v.len() - pos,
    {
        let end: usize = if v.len() - pos <= TABLE_CAPACITY {
            v.len()
        } else {
            pos + TABLE_CAPACITY
        };
        let ghost chunk = s.subrange(pos as int, end as int);
        let ghost rest = chunks(s.skip(end as int), TABLE_CAPACITY as nat);
        proof {
            if v@.len() - pos <= TABLE_CAPACITY {
                assert(chunk =~= s.skip(pos as int));
                assert(s.skip(end as int) =~= Seq::empty());
                assert(seq![chunk] + rest =~= seq![chunk]);
            } else {
                assert(chunk =~= s.skip(pos as int).take(TABLE_CAPACITY as int));
                assert(s.skip(pos as int).skip(TABLE_CAPACITY as int) =~= s.skip(end as int));
            }
            assert(chunks(s.skip(pos as int), TABLE_CAPACITY as nat) == seq![chunk] + rest);
            assert(done + (seq![chunk] + rest) =~= done.push(chunk) + rest);
        }
        if id == usize::MAX {
            return None;
        }
        let name = make_table_name(id);
        let path = make_table_path(dir, level, name.as_str());
        let content = render_table(v, pos, end);
        let ghost before = disk::effects_view(effects@);
        let ghost listed = manifest::level_view(added@);
        effects.push(Effect::WriteFile { path: path.clone(), content });
        effects.push(Effect::SyncParent { path });
        let l = ManifestLine {
            start_key: v[pos].0.clone(),
            end_key: v[end - 1].0.clone(),
            sst_name: name,
        };
        added.push(l);
        proof {
            assert(disk::effects_view(effects@) =~= before + storage::table_effects(
                dir@,
                level as nat,
                id as nat,
                chunk,
            ));
            assert(done.push(chunk).drop_last() =~= done);
            assert(chunk[0] == s[pos as int] && chunk.last() == s[end - 1]);
            assert(manifest::level_view(added@) =~= listed.push(l@));
            assert(l@ == chunk_line(chunk, id as nat));
            assert(listed.push(l@) =~= chunk_lines(done.push(chunk), first as nat));
            done = done.push(chunk);
        }
        id += 1;
        pos = end;
    }
    proof {
        assert(s.skip(pos as int) =~= Seq::empty());
        assert(done + chunks(s.skip(pos as int), TABLE_CAPACITY as nat) =~= done);
    }
    Some((effects, added))
}

} // verus!
