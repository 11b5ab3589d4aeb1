//! What the store asks to be done to its files, and what that leaves of them.

use crate::text;
use crate::text::to_decimal;
use vstd::prelude::*;
use vstd::string::StringExecFns;

verus! {

/// One thing to be done to the files.
#[derive(Debug, PartialEq, Eq)]
pub enum Effect {
    /// Make a directory, unless it is there.
    CreateDir { path: String },
    /// Write a file, in place of one that may be there.
    CreateFile { path: String, content: String },
    /// Write a file, in place of one that may be there, and wait until it is on disk.
    WriteFile { path: String, content: String },
    /// Write at the end of a file that is there, and wait until it is on disk.
    Append { path: String, content: String },
    /// Wait until the directory in which the file is listed is on disk.
    SyncParent { path: String },
    /// Give a file another name, in place of a file that may have that name.
    Rename { from: String, to: String },
    /// Remove a file.
    Remove { path: String },
}

/// What an `Effect` holds.
pub enum EffectView {
    CreateDir { path: Seq<char> },
    CreateFile { path: Seq<char>, content: Seq<char> },
    WriteFile { path: Seq<char>, content: Seq<char> },
    Append { path: Seq<char>, content: Seq<char> },
    SyncParent { path: Seq<char> },
    Rename { from: Seq<char>, to: Seq<char> },
    Remove { path: Seq<char> },
}

impl View for Effect {
    type V = EffectView;

    open spec fn view(&self) -> EffectView {
        match self {
            Effect::CreateDir { path } => EffectView::CreateDir { path: path@ },
            Effect::CreateFile { path, content } => EffectView::CreateFile {
                path: path@,
                content: content@,
            },
            Effect::WriteFile { path, content } => EffectView::WriteFile {
                path: path@,
                content: content@,
            },
            Effect::Append { path, content } => EffectView::Append {
                path: path@,
                content: content@,
            },
            Effect::SyncParent { path } => EffectView::SyncParent { path: path@ },
            Effect::Rename { from, to } => EffectView::Rename { from: from@, to: to@ },
            Effect::Remove { path } => EffectView::Remove { path: path@ },
        }
    }
}

/// What effects hold.
pub open spec fn effects_view(v: Seq<Effect>) -> Seq<EffectView> {
    v.map_values(|e: Effect| e@)
}

/// The files: the text of each by its path.
pub type Files = Map<Seq<char>, Seq<char>>;

/// The files after one effect.
pub open spec fn apply(files: Files, e: EffectView) -> Files {
    match e {
        EffectView::CreateDir { path } => files,
        EffectView::CreateFile { path, content } => files.insert(path, content),
        EffectView::WriteFile { path, content } => files.insert(path, content),
        EffectView::Append { path, content } => files.insert(path, files[path] + content),
        EffectView::SyncParent { path } => files,
        EffectView::Rename { from, to } => files.remove(from).insert(to, files[from]),
        EffectView::Remove { path } => files.remove(path),
    }
}

/// The files after these effects, one after the other.
pub open spec fn run(files: Files, effects: Seq<EffectView>) -> Files
    decreases effects.len(),
{
    if effects.len() == 0 {
        files
    } else {
        apply(run(files, effects.drop_last()), effects.last())
    }
}

/// The path of the manifest.
pub open spec fn manifest_path(dir: Seq<char>) -> Seq<char> {
    dir + "/MANIFEST.txt"@
}

/// The path under which a manifest is written before it takes the place of the old one.
pub open spec fn manifest_tmp_path(dir: Seq<char>) -> Seq<char> {
    dir + "/MANIFEST.tmp"@
}

/// The path of the write-ahead log.
pub open spec fn wal_path(dir: Seq<char>) -> Seq<char> {
    dir + "/wal.db"@
}

/// The path of the directory of a level.
pub open spec fn level_path(dir: Seq<char>, level: nat) -> Seq<char> {
    dir + "/l"@ + text::decimal(level)
}

/// The path of a table.
pub open spec fn table_path(dir: Seq<char>, level: nat, name: Seq<char>) -> Seq<char> {
    level_path(dir, level) + "/"@ + name
}

/// The path of the manifest.
pub fn make_manifest_path(dir: &str) -> (r: String)
    ensures
        r@ == manifest_path(dir@),
{
    text::concat(dir, "/MANIFEST.txt")
}

/// The path under which a manifest is written first.
pub fn make_manifest_tmp_path(dir: &str) -> (r: String)
    ensures
        r@ == manifest_tmp_path(dir@),
{
    text::concat(dir, "/MANIFEST.tmp")
}

/// The path of the write-ahead log.
pub fn make_wal_path(dir: &str) -> (r: String)
    ensures
        r@ == wal_path(dir@),
{
    text::concat(dir, "/wal.db")
}

/// The path of the directory of a level.
pub fn make_level_path(dir: &str, level: usize) -> (r: String)
    ensures
        r@ == level_path(dir@, level as nat),
{
    let mut r = text::concat(dir, "/l");
    r.append(to_decimal(level).as_str());
    r
}

/// The path of a table.
pub fn make_table_path(dir: &str, level: usize, name: &str) -> (r: String)
    ensures
        r@ == table_path(dir@, level as nat, name@),
{
    let mut r = make_level_path(dir, level);
    r.append("/");
    r.append(name);
    r
}

/// Effects one after the other.
pub proof fn lemma_run_concat(files: Files, a: Seq<EffectView>, b: Seq<EffectView>)
    ensures
        run(files, a + b) == run(run(files, a), b),
    decreases b.len(),
{
    if b.len() == 0 {
        assert(a + b =~= a);
    } else {
        assert((a + b).drop_last() =~= a + b.drop_last());
        lemma_run_concat(files, a, b.drop_last());
    }
}

/// A single effect.
pub proof fn lemma_run_one(files: Files, e: EffectView)
    ensures
        run(files, seq![e]) == apply(files, e),
{
    assert(seq![e].drop_last() =~= Seq::empty());
    assert(run(files, Seq::empty()) == files);
}

/// Whether an effect changes the file at this path.
pub open spec fn touches(e: EffectView, q: Seq<char>) -> bool {
    match e {
        EffectView::CreateDir { path } => false,
        EffectView::CreateFile { path, content } => path == q,
        EffectView::WriteFile { path, content } => path == q,
        EffectView::Append { path, content } => path == q,
        EffectView::SyncParent { path } => false,
        EffectView::Rename { from, to } => from == q || to == q,
        EffectView::Remove { path } => path == q,
    }
}

/// A file that no effect changes stays as it was.
pub proof fn lemma_run_untouched(files: Files, effects: Seq<EffectView>, q: Seq<char>)
    requires
        forall|i: int| 0 <= i < effects.len() ==> !touches(#[trigger] effects[i], q),
    ensures
        run(files, effects).contains_key(q) == files.contains_key(q),
        run(files, effects)[q] == files[q],
    decreases effects.len(),
{
    if effects.len() > 0 {
        let front = effects.drop_last();
        assert forall|i: int| 0 <= i < front.len() implies !touches(#[trigger] front[i], q) by {
            assert(front[i] == effects[i]);
        }
        lemma_run_untouched(files, front, q);
        assert(!touches(effects[effects.len() - 1], q));
    }
}

/// The manifest, its copy, the log and the tables are different files.
pub proof fn lemma_paths_differ(dir: Seq<char>, level: nat, name: Seq<char>)
    ensures
        manifest_path(dir) != manifest_tmp_path(dir),
        manifest_path(dir) != wal_path(dir),
        manifest_tmp_path(dir) != wal_path(dir),
        table_path(dir, level, name) != manifest_path(dir),
        table_path(dir, level, name) != manifest_tmp_path(dir),
        table_path(dir, level, name) != wal_path(dir),
{
    reveal_strlit("/MANIFEST.txt");
    reveal_strlit("/MANIFEST.tmp");
    reveal_strlit("/wal.db");
    reveal_strlit("/l");
    let n = dir.len() as int;
    assert(manifest_path(dir)[n + 1] == 'M');
    assert(manifest_tmp_path(dir)[n + 1] == 'M');
    assert(manifest_path(dir)[n + 11] == 'x');
    assert(manifest_tmp_path(dir)[n + 11] == 'm');
    assert(wal_path(dir)[n + 1] == 'w');
    assert(table_path(dir, level, name)[n + 1] == 'l');
}

/// Tables of different levels, or of different names, are different files.
pub proof fn lemma_table_path_injective(
    dir: Seq<char>,
    level: nat,
    name: Seq<char>,
    other: nat,
    other_name: Seq<char>,
)
    requires
        table_path(dir, level, name) == table_path(dir, other, other_name),
    ensures
        level == other,
        name == other_name,
{
    reveal_strlit("/l");
    reveal_strlit("/");
    let p = table_path(dir, level, name);
    let start = dir.len() as int + 2;
    let rest = p.skip(start);
    let a = text::decimal(level);
    let b = text::decimal(other);
    assert(rest =~= a + seq!['/'] + name);
    assert(rest =~= b + seq!['/'] + other_name);
    text::lemma_decimal(level);
    text::lemma_decimal(other);
    assert forall|i: int| 0 <= i < a.len() implies rest[i] != '/' by {
        assert(text::is_digit(a[i]));
    }
    assert forall|i: int| 0 <= i < b.len() implies rest[i] != '/' by {
        assert(text::is_digit(b[i]));
    }
    text::lemma_position_is(rest, '/', a.len() as int);
    text::lemma_position_is(rest, '/', b.len() as int);
    assert(a =~= rest.take(a.len() as int));
    assert(b =~= rest.take(b.len() as int));
    text::lemma_decimal_injective(level, other);
    assert(name =~= rest.skip(a.len() as int + 1));
    assert(other_name =~= rest.skip(b.len() as int + 1));
}

} // verus!
