//! What a read looks into, in which order, and that it ends with what it finds there.

use crate::disk;
use crate::disk::Files;
use crate::error::StoreError;
use crate::manifest;
use crate::manifest::LineView;
use crate::search;
use crate::search::{Answer, SearchView};
use crate::sorted::InfoView;
use crate::storage::StoreView;
use crate::table;
use crate::text;
use vstd::prelude::*;

verus! {

/// The text `Key`, the key and `not found`, with a space on either side of the key.
pub open spec fn missing(key: Seq<char>) -> Seq<char> {
    seq!['K', 'e', 'y', ' '] + key + seq![' ', 'n', 'o', 't', ' ', 'f', 'o', 'u', 'n', 'd']
}

/// A read wants a file just as long as it is not done, and once it is done, it stays as it is.
pub proof fn law_wants_until_done(search: SearchView, content: Seq<char>)
    requires
        search.valid(),
    ensures
        search.wanted() is None <==> search is Done,
        search is Done ==> search.step(content) == Ok::<SearchView, StoreError>(search),
{
}

/// A read after so many steps, each with the file that it wants, or what is wrong with one of them.
pub open spec fn drive(search: SearchView, files: Files, n: nat) -> Result<SearchView, StoreError>
    decreases n,
{
    if n == 0 {
        Ok(search)
    } else {
        match search.wanted() {
            None => Ok(search),
            Some(path) => match search.step(files[path]) {
                Err(e) => Err(e),
                Ok(next) => drive(next, files, (n - 1) as nat),
            },
        }
    }
}

proof fn lemma_drive_tables(search: SearchView, files: Files) -> (n: nat)
    requires
        search.valid(),
        !(search is Manifest),
    ensures
        match search.outcome(files) {
            Ok(answer) => drive(search, files, n) == Ok::<SearchView, StoreError>(
                SearchView::Done { answer },
            ),
            Err(e) => drive(search, files, n) == Err::<SearchView, StoreError>(e),
        },
    decreases search.distance().1,
{
    match search {
        SearchView::Tables { paths, key } => {
            search::law_search_step(search, files);
            match search.step(files[paths[0]]) {
                Ok(next) => {
                    let n = lemma_drive_tables(next, files);
                    assert(drive(search, files, n + 1) == drive(next, files, n));
                    n + 1
                },
                Err(e) => {
                    assert(drive(search, files, 1) == Err::<SearchView, StoreError>(e));
                    1
                },
            }
        },
        _ => 0,
    }
}

/// To hand a read the files that it wants, one after the other, ends: it is then done with the
/// answer that the files give, or one of them is wrong, and then that is what the files give.
pub proof fn law_read_ends(search: SearchView, files: Files) -> (n: nat)
    requires
        search.valid(),
    ensures
        match search.outcome(files) {
            Ok(answer) => drive(search, files, n) == Ok::<SearchView, StoreError>(
                SearchView::Done { answer },
            ),
            Err(e) => drive(search, files, n) == Err::<SearchView, StoreError>(e),
        },
{
    match search {
        SearchView::Manifest { dir, key } => {
            let content = files[disk::manifest_path(dir)];
            search::law_search_step(search, files);
            match search.step(content) {
                Ok(next) => {
                    let n = lemma_drive_tables(next, files);
                    assert(drive(search, files, n + 1) == drive(next, files, n));
                    n + 1
                },
                Err(e) => {
                    assert(drive(search, files, 1) == Err::<SearchView, StoreError>(e));
                    1
                },
            }
        },
        _ => lemma_drive_tables(search, files),
    }
}

/// A read of a key gives back what the store answers: its table in memory decides, and where that
/// does not have the key, the files do.
pub proof fn law_get(store: StoreView, files: Files, key: Seq<char>)
    ensures
        store.memtable.contains_key(key) && !store.memtable[key].deleted ==> store.answer(files, key)
            == Ok::<Answer, StoreError>(Ok(store.memtable[key].value)),
        store.memtable.contains_key(key) && store.memtable[key].deleted ==> store.answer(files, key)
            == Ok::<Answer, StoreError>(
            Err(missing(key)),
        ),
        !store.memtable.contains_key(key) ==> store.answer(files, key)
            == (SearchView::Manifest { dir: store.data_dir, key }).outcome(files),
{
    lemma_not_found(key);
}

proof fn lemma_not_found(key: Seq<char>)
    ensures
        search::not_found(key) == missing(key),
{
    reveal_strlit("Key ");
    reveal_strlit(" not found");
    assert("Key "@ =~= seq!['K', 'e', 'y', ' ']);
    assert(" not found"@ =~= seq![' ', 'n', 'o', 't', ' ', 'f', 'o', 'u', 'n', 'd']);
}

/// A read of the files gives back what is wrong with the manifest, if anything is.
pub proof fn law_wrong_manifest(dir: Seq<char>, files: Files, key: Seq<char>)
    ensures
        manifest::manifest_levels(files[disk::manifest_path(dir)]) matches Err(e)
            ==> (SearchView::Manifest { dir, key }).outcome(files) == Err::<Answer, StoreError>(e),
{
}

/// Of several tables the first that has the key decides, whatever is in those after it; what is
/// wrong with a table before that is what is given back. The key is not found if no table has it.
pub proof fn law_first_table_decides(
    files: Files,
    paths: Seq<Seq<char>>,
    key: Seq<char>,
    n: int,
)
    requires
        0 <= n <= paths.len(),
        forall|j: int|
            0 <= j < n ==> table::table_search(files[#[trigger] paths[j]], key) == Ok::<
                Option<InfoView>,
                StoreError,
            >(None),
    ensures
        ({
            let answer = search::tables_answer(files, paths, key);
            if n == paths.len() {
                answer == Ok::<Answer, StoreError>(
                    Err(missing(key)),
                )
            } else {
                match table::table_search(files[paths[n]], key) {
                    Err(e) => answer == Err::<Answer, StoreError>(e),
                    Ok(None) => true,
                    Ok(Some(info)) => if info.deleted {
                        answer == Ok::<Answer, StoreError>(
                            Err(missing(key)),
                        )
                    } else {
                        answer == Ok::<Answer, StoreError>(Ok(info.value))
                    },
                }
            }
        }),
    decreases n,
{
    lemma_not_found(key);
    if n > 0 {
        let rest = paths.drop_first();
        assert(table::table_search(files[paths[0]], key) == Ok::<Option<InfoView>, StoreError>(None));
        assert forall|j: int| 0 <= j < n - 1 implies table::table_search(
            files[#[trigger] rest[j]],
            key,
        ) == Ok::<Option<InfoView>, StoreError>(None) by {
            assert(rest[j] == paths[j + 1]);
        }
        law_first_table_decides(files, rest, key, n - 1);
    }
}

/// A table that is added to a level is looked into before the others of the level: on level 0 in
/// any case, on another level if and only if the key does not come before its first key, and its
/// last key does not come before the key.
pub proof fn law_newest_first(
    dir: Seq<char>,
    level: nat,
    ls: Seq<LineView>,
    l: LineView,
    key: Seq<char>,
)
    ensures
        search::level_candidates(dir, level, Seq::empty(), key) == Seq::<Seq<char>>::empty(),
        search::level_candidates(dir, level, ls.push(l), key) == if level == 0 || !(text::precedes(
            key,
            l.start_key,
        ) || text::precedes(l.end_key, key)) {
            seq![disk::table_path(dir, level, l.sst_name)] + search::level_candidates(
                dir,
                level,
                ls,
                key,
            )
        } else {
            search::level_candidates(dir, level, ls, key)
        },
{
    assert(ls.push(l).drop_last() =~= ls);
}

/// The tables of a level that is added are looked into after those of the levels before it.
pub proof fn law_deeper_later(
    dir: Seq<char>,
    levels: Seq<Seq<LineView>>,
    ls: Seq<LineView>,
    key: Seq<char>,
)
    ensures
        search::candidates(dir, Seq::empty(), 0, key) == Seq::<Seq<char>>::empty(),
        search::candidates(dir, levels.push(ls), 0, key) == search::candidates(dir, levels, 0, key)
            + search::level_candidates(dir, levels.len(), ls, key),
{
    lemma_deeper_later(dir, levels, ls, 0, key);
}

proof fn lemma_deeper_later(
    dir: Seq<char>,
    levels: Seq<Seq<LineView>>,
    ls: Seq<LineView>,
    level: nat,
    key: Seq<char>,
)
    requires
        level <= levels.len(),
    ensures
        search::candidates(dir, levels.push(ls), level, key) == search::candidates(
            dir,
            levels,
            level,
            key,
        ) + search::level_candidates(dir, levels.len(), ls, key),
    decreases levels.len() - level,
{
    let more = levels.push(ls);
    let last = search::level_candidates(dir, levels.len(), ls, key);
    if level == levels.len() {
        assert(search::candidates(dir, more, level + 1, key) =~= Seq::empty());
        assert(search::candidates(dir, more, level, key) =~= last);
        assert(search::candidates(dir, levels, level, key) + last =~= last);
    } else {
        lemma_deeper_later(dir, levels, ls, level + 1, key);
        let here = search::level_candidates(dir, level, levels[level as int], key);
        assert(more[level as int] == levels[level as int]);
        let deeper = search::candidates(dir, levels, level + 1, key);
        assert(here + (deeper + last) =~= (here + deeper) + last);
    }
}

/// A read of the files looks into the tables that the manifest lists.
pub proof fn law_read_by_manifest(
    dir: Seq<char>,
    files: Files,
    levels: Seq<Seq<LineView>>,
    key: Seq<char>,
)
    requires
        manifest::manifest_levels(files[dir + seq![
            '/', 'M', 'A', 'N', 'I', 'F', 'E', 'S', 'T', '.', 't', 'x', 't',
        ]]) == Ok::<Seq<Seq<LineView>>, StoreError>(levels),
    ensures
        (SearchView::Manifest { dir, key }).outcome(files) == search::tables_answer(
            files,
            search::candidates(dir, levels, 0, key),
            key,
        ),
{
    reveal_strlit("/MANIFEST.txt");
    assert(disk::manifest_path(dir) =~= dir + seq![
        '/', 'M', 'A', 'N', 'I', 'F', 'E', 'S', 'T', '.', 't', 'x', 't',
    ]);
}

} // verus!
