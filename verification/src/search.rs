//! Looking for a key in the tables on disk, one file at a time.

use crate::disk;
use crate::disk::{make_manifest_path, make_table_path, Files};
use crate::error::StoreError;
use crate::manifest;
use crate::manifest::{parse_manifest, LineView, ManifestLine};
use crate::sorted::InfoView;
use crate::table;
use crate::text;
use crate::text::str_precedes;
use vstd::prelude::*;
use vstd::string::StringExecFns;

verus! {

/// What a read gives back: the value, or the message that there is none.
pub type Answer = Result<Seq<char>, Seq<char>>;

/// The message that a key is not there.
pub open spec fn not_found(key: Seq<char>) -> Seq<char> {
    "Key "@ + key + " not found"@
}

/// What a read gives back where a table has this for the key.
pub open spec fn answer_of(info: InfoView, key: Seq<char>) -> Answer {
    if info.deleted {
        Err(not_found(key))
    } else {
        Ok(info.value)
    }
}

/// Whether the key range of a table has room for the key.
pub open spec fn in_range(l: LineView, key: Seq<char>) -> bool {
    !text::precedes(key, l.start_key) && !text::precedes(l.end_key, key)
}

/// The tables of a level in which to look for the key, newest first: on level 0 all, on another
/// level those with room for it.
pub open spec fn level_candidates(
    dir: Seq<char>,
    level: nat,
    ls: Seq<LineView>,
    key: Seq<char>,
) -> Seq<Seq<char>>
    decreases ls.len(),
{
    if ls.len() == 0 {
        Seq::empty()
    } else {
        let older = level_candidates(dir, level, ls.drop_last(), key);
        if level == 0 || in_range(ls.last(), key) {
            seq![disk::table_path(dir, level, ls.last().sst_name)] + older
        } else {
            older
        }
    }
}

/// The tables in which to look for the key from a level on, in this order.
pub open spec fn candidates(
    dir: Seq<char>,
    levels: Seq<Seq<LineView>>,
    level: nat,
    key: Seq<char>,
) -> Seq<Seq<char>>
    decreases levels.len() - level,
{
    if level >= levels.len() {
        Seq::empty()
    } else {
        level_candidates(dir, level, levels[level as int], key) + candidates(
            dir,
            levels,
            level + 1,
            key,
        )
    }
}

/// What looking into these tables gives: the first that has the key decides.
pub open spec fn tables_answer(files: Files, paths: Seq<Seq<char>>, key: Seq<char>) -> Result<
    Answer,
    StoreError,
>
    decreases paths.len(),
{
    if paths.len() == 0 {
        Ok(Err(not_found(key)))
    } else {
        match table::table_search(files[paths[0]], key) {
            Err(e) => Err(e),
            Ok(Some(info)) => Ok(answer_of(info, key)),
            Ok(None) => tables_answer(files, paths.drop_first(), key),
        }
    }
}

/// What looking into the files gives.
pub open spec fn disk_answer(dir: Seq<char>, files: Files, key: Seq<char>) -> Result<
    Answer,
    StoreError,
> {
    match manifest::manifest_levels(files[disk::manifest_path(dir)]) {
        Err(e) => Err(e),
        Ok(levels) => tables_answer(files, candidates(dir, levels, 0, key), key),
    }
}

/// A read under way: it wants the text of a file, or it is done.
pub enum SearchView {
    /// Wants the manifest.
    Manifest { dir: Seq<char>, key: Seq<char> },
    /// Wants the first of these tables.
    Tables { paths: Seq<Seq<char>>, key: Seq<char> },
    Done { answer: Answer },
}

/// A read that has these tables still to look into.
pub open spec fn look_into(paths: Seq<Seq<char>>, key: Seq<char>) -> SearchView {
    if paths.len() == 0 {
        SearchView::Done { answer: Err(not_found(key)) }
    } else {
        SearchView::Tables { paths, key }
    }
}

impl SearchView {
    /// A read that looks into tables has at least one to look into.
    pub open spec fn valid(self) -> bool {
        self matches SearchView::Tables { paths, key } ==> paths.len() > 0
    }

    /// The path of the file that is wanted.
    pub open spec fn wanted(self) -> Option<Seq<char>> {
        match self {
            SearchView::Manifest { dir, key } => Some(disk::manifest_path(dir)),
            SearchView::Tables { paths, key } => Some(paths[0]),
            SearchView::Done { answer } => None,
        }
    }

    /// The read once the wanted file turned out to have this text.
    pub open spec fn step(self, content: Seq<char>) -> Result<SearchView, StoreError> {
        match self {
            SearchView::Manifest { dir, key } => match manifest::manifest_levels(content) {
                Err(e) => Err(e),
                Ok(levels) => Ok(look_into(candidates(dir, levels, 0, key), key)),
            },
            SearchView::Tables { paths, key } => match table::table_search(content, key) {
                Err(e) => Err(e),
                Ok(Some(info)) => Ok(SearchView::Done { answer: answer_of(info, key) }),
                Ok(None) => Ok(look_into(paths.drop_first(), key)),
            },
            SearchView::Done { answer } => Ok(self),
        }
    }

    /// What the read will give back, going by these files.
    pub open spec fn outcome(self, files: Files) -> Result<Answer, StoreError> {
        match self {
            SearchView::Manifest { dir, key } => disk_answer(dir, files, key),
            SearchView::Tables { paths, key } => tables_answer(files, paths, key),
            SearchView::Done { answer } => Ok(answer),
        }
    }

    /// How far the read is from being done.
    pub open spec fn distance(self) -> (int, nat) {
        match self {
            SearchView::Manifest { dir, key } => (2, 0),
            SearchView::Tables { paths, key } => (1, paths.len()),
            SearchView::Done { answer } => (0, 0),
        }
    }
}

/// How far a read has come.
enum State {
    /// Wants the manifest.
    Manifest { dir: String, key: String },
    /// Wants the last of these tables.
    Tables { paths: Vec<String>, key: String },
    /// Is done.
    Done { answer: Result<String, String> },
}

/// A read under way.
pub struct Search {
    state: State,
}

/// What an answer holds.
pub open spec fn answer_view(answer: Result<String, String>) -> Answer {
    match answer {
        Ok(value) => Ok(value@),
        Err(message) => Err(message@),
    }
}

impl View for Search {
    type V = SearchView;

    closed spec fn view(&self) -> SearchView {
        match self.state {
            State::Manifest { dir, key } => SearchView::Manifest { dir: dir@, key: key@ },
            State::Tables { paths, key } => SearchView::Tables {
                paths: text::views(paths@).reverse(),
                key: key@,
            },
            State::Done { answer } => SearchView::Done { answer: answer_view(answer) },
        }
    }
}

/// The message that a key is not there.
pub fn make_not_found(key: &str) -> (r: String)
    ensures
        r@ == not_found(key@),
{
    let mut r = text::concat("Key ", key);
    r.append(" not found");
    r
}

/// The tables in which to look for the key, the first of them last.
fn list_candidates(dir: &str, levels: &Vec<Vec<ManifestLine>>, key: &str) -> (r: Vec<String>)
    ensures
        text::views(r@).reverse() == candidates(dir@, manifest::levels_view(levels@), 0, key@),
{
    let ghost view = manifest::levels_view(levels@);
    let mut r: Vec<String> = Vec::new();
    let mut i: usize = levels.len();
    assert(text::views(r@).reverse() =~= Seq::empty());
    while i > 0
        invariant
            i <= levels@.len(),
            view == manifest::levels_view(levels@),
            text::views(r@).reverse() == candidates(dir@, view, i as nat, key@),
        decreases i,
    {
        i -= 1;
        let level = &levels[i];
        let ghost here = manifest::level_view(level@);
        let ghost deeper = candidates(dir@, view, (i + 1) as nat, key@);
        assert(view[i as int] == here);
        let mut j: usize = 0;
        assert(here.take(0) =~= Seq::empty());
        assert(Seq::<Seq<char>>::empty() + deeper =~= deeper);
        while j < level.len()
            invariant
                i < levels@.len(),
                j <= level@.len(),
                here == manifest::level_view(level@),
                text::views(r@).reverse() == level_candidates(
                    dir@,
                    i as nat,
                    here.take(j as int),
                    key@,
                ) + deeper,
            decreases level.len() - j,
        {
            let l = &level[j];
            let ghost before = text::views(r@);
            proof {
                assert(here[j as int] == l@);
                assert(here.take(j + 1).drop_last() =~= here.take(j as int));
            }
            if i == 0 || (!str_precedes(key, l.start_key.as_str()) && !str_precedes(
                l.end_key.as_str(),
                key,
            )) {
                let path = make_table_path(dir, i, l.sst_name.as_str());
                r.push(path);
                proof {
                    assert(text::views(r@) =~= before.push(path@));
                    assert(before.push(path@).reverse() =~= seq![path@] + before.reverse());
                    let older = level_candidates(dir@, i as nat, here.take(j as int), key@);
                    assert(seq![path@] + (older + deeper) =~= (seq![path@] + older) + deeper);
                }
            }
            j += 1;
        }
        assert(here.take(j as int) =~= here);
    }
    r
}

impl Search {
    #[verifier::type_invariant]
    spec fn well_formed(self) -> bool {
        self@.valid()
    }

    /// A read of the files of a store.
    pub fn new(dir: &str, key: &str) -> (r: Search)
        ensures
            r@ == (SearchView::Manifest { dir: dir@, key: key@ }),
    {
        Search { state: State::Manifest { dir: dir.to_owned(), key: key.to_owned() } }
    }

    /// A read that is done.
    pub fn done(answer: Result<String, String>) -> (r: Search)
        ensures
            r@ == (SearchView::Done { answer: answer_view(answer) }),
    {
        Search { state: State::Done { answer } }
    }

    /// The path of the file that is wanted, if the read is not done.
    pub fn wanted(&self) -> (r: Option<String>)
        ensures
            self@.valid(),
            match r {
                Some(path) => self@.wanted() == Some(path@),
                None => self@.wanted() is None,
            },
            r is None <==> self@ is Done,
    {
        proof {
            use_type_invariant(self);
        }
        match &self.state {
            State::Manifest { dir, key } => Some(make_manifest_path(dir.as_str())),
            State::Tables { paths, key } => {
                let n = paths.len();
                assert(text::views(paths@).reverse()[0] == paths@[n - 1]@);
                Some(paths[n - 1].clone())
            },
            State::Done { answer } => None,
        }
    }

    /// What the read gives back, if it is done.
    pub fn answer(&self) -> (r: Option<Result<String, String>>)
        ensures
            match r {
                Some(answer) => self@ == (SearchView::Done { answer: answer_view(answer) }),
                None => !(self@ is Done),
            },
            self@.valid(),
            r is Some <==> self@.wanted() is None,
    {
        proof {
            use_type_invariant(self);
        }
        match &self.state {
            State::Done { answer } => match answer {
                Ok(value) => Some(Ok(value.clone())),
                Err(message) => Some(Err(message.clone())),
            },
            _ => None,
        }
    }

    /// Goes on with the text of the wanted file.
    pub fn step(self, content: &str) -> (r: Result<Search, StoreError>)
        ensures
            match r {
                Ok(next) => self@.step(content@) == Ok::<SearchView, StoreError>(next@),
                Err(e) => self@.step(content@) == Err::<SearchView, StoreError>(e),
            },
    {
        proof {
            use_type_invariant(&self);
        }
        match self.state {
            State::Manifest { dir, key } => {
                let levels = match parse_manifest(content) {
                    Ok(levels) => levels,
                    Err(e) => {
                        return Err(e);
                    },
                };
                let paths = list_candidates(dir.as_str(), &levels, key.as_str());
                Ok(Search::look_into(paths, key))
            },
            State::Tables { paths, key } => {
                match table::search(content, key.as_str()) {
                    Err(e) => Err(e),
                    Ok(Some(info)) => {
                        let answer: Result<String, String> = if info.deleted {
                            Err(make_not_found(key.as_str()))
                        } else {
                            Ok(info.value)
                        };
                        Ok(Search::done(answer))
                    },
                    Ok(None) => {
                        let mut rest = paths;
                        let ghost before = text::views(rest@);
                        let _ = rest.pop();
                        proof {
                            assert(text::views(rest@) =~= before.drop_last());
                            assert(before.drop_last().reverse() =~= before.reverse().drop_first());
                        }
                        Ok(Search::look_into(rest, key))
                    },
                }
            },
            State::Done { answer } => Ok(Search::done(answer)),
        }
    }

    /// A read that has these tables still to look into, the first of them last.
    fn look_into(paths: Vec<String>, key: String) -> (r: Search)
        ensures
            r@ == look_into(text::views(paths@).reverse(), key@),
    {
        if paths.len() == 0 {
            Search::done(Err(make_not_found(key.as_str())))
        } else {
            Search { state: State::Tables { paths, key } }
        }
    }
}

/// Whatever the wanted file holds, going on with it does not change what the read gives back,
/// and what is wrong with the file is what the read gives back.
pub proof fn law_search_step(search: SearchView, files: Files)
    requires
        search.valid(),
        search.wanted() is Some,
    ensures
        match search.step(files[search.wanted()->0]) {
            Ok(next) => next.outcome(files) == search.outcome(files),
            Err(e) => search.outcome(files) == Err::<Answer, StoreError>(e),
        },
{
    reveal_with_fuel(tables_answer, 2);
}

/// Every step brings a read nearer to its end: after the manifest come the tables, and every
/// step looks into one of them.
pub proof fn law_search_ends(search: SearchView, content: Seq<char>)
    requires
        search.valid(),
        search.wanted() is Some,
    ensures
        search.step(content) matches Ok(next) ==> next.distance().0 < search.distance().0 || (
        next.distance().0 == search.distance().0 && next.distance().1 < search.distance().1),
{
}

} // verus!
