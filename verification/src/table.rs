//! The table in memory and the tables on disk.

use crate::error::StoreError;
use crate::json;
use crate::json::{render, Document, Member};
use crate::sorted;
use crate::sorted::{InfoView, Pair};
use crate::storage::KVError;
use crate::text;
use crate::text::{split_lines, str_eq, str_precedes};
use vstd::prelude::*;

verus! {

/// A key with its value, or with the mark that it was deleted.
pub struct Entry {
    key: String,
    value: String,
    deleted: bool,
}

/// A value, or the mark that there is none any more.
pub struct Info {
    pub value: String,
    pub deleted: bool,
}

impl View for Info {
    type V = InfoView;

    open spec fn view(&self) -> InfoView {
        InfoView { value: self.value@, deleted: self.deleted }
    }
}

impl Clone for Info {
    fn clone(&self) -> (r: Self)
        ensures
            r@ == self@,
    {
        Info { value: self.value.clone(), deleted: self.deleted }
    }
}

impl View for Entry {
    type V = Pair;

    closed spec fn view(&self) -> Pair {
        (self.key@, InfoView { value: self.value@, deleted: self.deleted })
    }
}

/// What keys and infos hold.
pub open spec fn pairs(v: Seq<(String, Info)>) -> Seq<Pair> {
    v.map_values(|p: (String, Info)| (p.0@, p.1@))
}

/// The members of the object that stands for a pair.
pub open spec fn pair_members(p: Pair) -> Seq<(Seq<char>, json::MemberView)> {
    seq![
        ("key"@, json::MemberView::Text(p.0)),
        ("value"@, json::MemberView::Text(p.1.value)),
        ("deleted"@, json::MemberView::Flag(p.1.deleted)),
    ]
}

/// The line of a table that stands for a pair.
pub open spec fn pair_line(p: Pair) -> Seq<char> {
    json::json_object(pair_members(p))
}

/// The pair that an object with these members stands for.
pub open spec fn members_pair(
    key: Option<Seq<char>>,
    value: Option<Seq<char>>,
    deleted: Option<bool>,
) -> Result<Pair, StoreError> {
    match (key, value, deleted) {
        (Some(key), Some(value), Some(deleted)) => Ok((key, InfoView { value, deleted })),
        _ => Err(StoreError::BadRecord),
    }
}

/// The pair that a line of a table stands for.
pub open spec fn line_pair(line: Seq<char>) -> Result<Pair, StoreError> {
    if !json::json_valid(line) {
        Err(StoreError::BadJson)
    } else {
        members_pair(
            json::json_text(line, "key"@),
            json::json_text(line, "value"@),
            json::json_flag(line, "deleted"@),
        )
    }
}

/// The pairs that the lines of a table stand for, or what is wrong with the first line that
/// stands for none.
pub open spec fn lines_pairs(ls: Seq<Seq<char>>) -> Result<Seq<Pair>, StoreError>
    decreases ls.len(),
{
    if ls.len() == 0 {
        Ok(Seq::empty())
    } else {
        match line_pair(ls[0]) {
            Err(e) => Err(e),
            Ok(p) => match lines_pairs(ls.drop_first()) {
                Err(e) => Err(e),
                Ok(rest) => Ok(seq![p] + rest),
            },
        }
    }
}

/// The pairs that a table holds.
pub open spec fn table_pairs(content: Seq<char>) -> Result<Seq<Pair>, StoreError> {
    lines_pairs(text::lines(content))
}

/// The text of the table that holds these pairs.
pub open spec fn table_text(s: Seq<Pair>) -> Seq<char> {
    text::unlines(s.map_values(|p: Pair| pair_line(p)))
}

/// Whether a pair can be read back from the line that is written for it.
pub open spec fn reads_back(p: Pair) -> bool {
    &&& line_pair(pair_line(p)) == Ok::<Pair, StoreError>(p)
    &&& text::is_line(pair_line(p))
}

impl Entry {
    /// An entry of this key.
    pub fn new(key: String, info: Info) -> (r: Self)
        ensures
            r@ == (key@, info@),
    {
        Entry { key: key, value: info.value, deleted: info.deleted }
    }

    /// The line of a table that stands for the entry.
    pub fn to_string(&self) -> (r: String)
        ensures
            r@ == pair_line(self@),
            reads_back(self@),
            json::json_valid(r@),
            json::json_text(r@, "key"@) == Some(self@.0),
            json::json_text(r@, "value"@) == Some(self@.1.value),
            json::json_flag(r@, "deleted"@) == Some(self@.1.deleted),
            !r@.contains('\n'),
    {
        let mut members: Vec<(String, Member)> = Vec::new();
        members.push(("key".to_owned(), Member::Text(self.key.clone())));
        members.push(("value".to_owned(), Member::Text(self.value.clone())));
        members.push(("deleted".to_owned(), Member::Flag(self.deleted)));
        proof {
            reveal_strlit("key");
            reveal_strlit("value");
            reveal_strlit("deleted");
            let v = json::member_views(members@);
            assert(v =~= pair_members(self@));
            assert("key"@.len() == 3 && "value"@.len() == 5 && "deleted"@.len() == 7);
        }
        let r = render(&members);
        proof {
            let v = json::member_views(members@);
            assert(v[0] == ("key"@, json::MemberView::Text(self.key@)));
            assert(v[1] == ("value"@, json::MemberView::Text(self.value@)));
            assert(v[2] == ("deleted"@, json::MemberView::Flag(self.deleted)));
            if r@.len() > 0 {
                assert(r@[r@.len() - 1] == r@.last());
            }
        }
        r
    }
}

/// A copy of pairs.
fn copy_pairs(v: &Vec<(String, Info)>) -> (r: Vec<(String, Info)>)
    ensures
        pairs(r@) == pairs(v@),
{
    let mut r: Vec<(String, Info)> = Vec::new();
    let mut i: usize = 0;
    while i < v.len()
        invariant
            i <= v@.len(),
            pairs(r@) == pairs(v@).take(i as int),
        decreases v.len() - i,
    {
        let item = &v[i];
        let copy = (item.0.clone(), item.1.clone());
        proof {
            assert(pairs(r@.push(copy)) =~= pairs(r@).push((item.0@, item.1@)));
            assert(pairs(v@).take(i + 1) =~= pairs(v@).take(i as int).push((item.0@, item.1@)));
        }
        r.push(copy);
        i += 1;
    }
    assert(pairs(v@).take(i as int) =~= pairs(v@));
    r
}

/// The table in memory: at most one info for a key.
pub struct Memtable {
    table: Vec<(String, Info)>,
}

impl View for Memtable {
    type V = Map<Seq<char>, InfoView>;

    closed spec fn view(&self) -> Map<Seq<char>, InfoView> {
        sorted::first_wins(pairs(self.table@))
    }
}

/// A table in memory has finitely many keys.
pub proof fn lemma_finite(memtable: Memtable)
    ensures
        memtable@.dom().finite(),
{
    sorted::lemma_first_wins_finite(pairs(memtable.table@));
}

impl Clone for Memtable {
    fn clone(&self) -> (r: Self)
        ensures
            r@ == self@,
    {
        proof {
            use_type_invariant(self);
        }
        Memtable { table: copy_pairs(&self.table) }
    }
}

/// Where a key stands among pairs whose keys ascend, or would have to be inserted.
fn locate(table: &Vec<(String, Info)>, key: &str) -> (r: (bool, usize))
    requires
        sorted::is_sorted(pairs(table@)),
    ensures
        r.1 <= table@.len(),
        r.0 ==> r.1 < table@.len() && table@[r.1 as int].0@ == key@,
        forall|i: int| 0 <= i < r.1 ==> text::precedes((#[trigger] table@[i]).0@, key@),
        !r.0 ==> forall|i: int|
            r.1 <= i < table@.len() ==> text::precedes(key@, (#[trigger] table@[i]).0@),
{
    let ghost s = pairs(table@);
    let mut low: usize = 0;
    let mut high: usize = table.len();
    while low < high
        invariant
            low <= high <= table@.len(),
            s == pairs(table@),
            sorted::is_sorted(s),
            forall|i: int| 0 <= i < low ==> text::precedes((#[trigger] table@[i]).0@, key@),
            forall|i: int|
                high <= i < table@.len() ==> text::precedes(key@, (#[trigger] table@[i]).0@),
        decreases high - low,
    {
        let mid: usize = low + (high - low) / 2;
        let here = table[mid].0.as_str();
        proof {
            assert forall|i: int| 0 <= i < mid implies text::precedes(
                (#[trigger] table@[i]).0@,
                here@,
            ) by {
                assert(s[i].0 == table@[i].0@ && s[mid as int].0 == here@);
            }
            assert forall|i: int| mid < i < table@.len() implies text::precedes(
                here@,
                (#[trigger] table@[i]).0@,
            ) by {
                assert(s[i].0 == table@[i].0@ && s[mid as int].0 == here@);
            }
        }
        if str_precedes(here, key) {
            proof {
                assert forall|i: int| 0 <= i < mid + 1 implies text::precedes(
                    (#[trigger] table@[i]).0@,
                    key@,
                ) by {
                    if i < mid {
                        text::lemma_precedes_transitive(table@[i].0@, here@, key@);
                    }
                }
            }
            low = mid + 1;
        } else if str_precedes(key, here) {
            proof {
                assert forall|i: int| mid <= i < table@.len() implies text::precedes(
                    key@,
                    (#[trigger] table@[i]).0@,
                ) by {
                    if i > mid {
                        text::lemma_precedes_transitive(key@, here@, table@[i].0@);
                    }
                }
            }
            high = mid;
        } else {
            proof {
                text::lemma_precedes_total(here@, key@);
            }
            return (true, mid);
        }
    }
    (false, low)
}

impl Memtable {
    #[verifier::type_invariant]
    spec fn well_formed(self) -> bool {
        sorted::is_sorted(pairs(self.table@))
    }

    /// An empty table.
    pub fn new() -> (r: Self)
        ensures
            r@ == Map::<Seq<char>, InfoView>::empty(),
    {
        Memtable { table: Vec::new() }
    }

    /// The value of a key, or whether it was deleted or never there.
    pub fn get(&self, key: &str) -> (r: Result<String, KVError>)
        ensures
            match r {
                Ok(value) => self@.contains_key(key@) && !self@[key@].deleted && value@
                    == self@[key@].value,
                Err(KVError::Deleted) => self@.contains_key(key@) && self@[key@].deleted,
                Err(KVError::NotFound) => !self@.contains_key(key@),
            },
    {
        proof {
            use_type_invariant(self);
        }
        let ghost s = pairs(self.table@);
        let (found, at) = locate(&self.table, key);
        if found {
            proof {
                assert(s[at as int].0 == key@);
                sorted::lemma_sorted_at(s, at as int);
            }
            let info = &self.table[at].1;
            if info.deleted {
                Err(KVError::Deleted)
            } else {
                Ok(info.value.clone())
            }
        } else {
            proof {
                sorted::lemma_first_wins_dom(s, key@);
                text::lemma_precedes_irreflexive(key@);
                if sorted::has_key(s, key@) {
                    let i = choose|i: int| 0 <= i < s.len() && (#[trigger] s[i]).0 == key@;
                    assert(self.table@[i].0@ == key@);
                }
            }
            Err(KVError::NotFound)
        }
    }

    /// Puts an entry in place of what the table holds for its key.
    pub fn insert(&mut self, entry: Entry)
        ensures
            final(self)@ == old(self)@.insert(entry@.0, entry@.1),
    {
        proof {
            use_type_invariant(&*self);
        }
        let mut table: Vec<(String, Info)> = Vec::new();
        std::mem::swap(&mut self.table, &mut table);
        let ghost before = table@;
        let ghost s = pairs(before);
        let ghost key = entry@.0;
        let ghost info = entry@.1;
        let (found, at) = locate(&table, entry.key.as_str());
        let item = (entry.key, Info { value: entry.value, deleted: entry.deleted });
        let ghost i = at as int;
        if found {
            table[at] = item;
            proof {
                assert(pairs(table@) =~= s.update(i, (key, info)));
                assert(s[i].0 == key);
                sorted::lemma_update(s, i, key, info);
            }
        } else {
            table.insert(at, item);
            proof {
                assert(pairs(table@) =~= s.insert(i, (key, info)));
                assert forall|j: int| 0 <= j < s.len() implies s[j].0 == (
                #[trigger] before[j]).0@ by {}
                sorted::lemma_insert(s, i, key, info);
            }
        }
        self.table = table;
    }

    /// Empties the table.
    pub fn clear(&mut self)
        ensures
            final(self)@ == Map::<Seq<char>, InfoView>::empty(),
    {
        self.table = Vec::new();
    }

    /// How many keys the table holds.
    pub fn len(&self) -> (r: usize)
        ensures
            r == self@.len(),
            self@.dom().finite(),
    {
        proof {
            use_type_invariant(self);
            sorted::lemma_sorted_len(pairs(self.table@));
        }
        self.table.len()
    }
}

/// Walks the table in memory in the order of its keys.
pub struct MemtableIter {
    entries: Vec<(String, Info)>,
    pos: usize,
}

impl MemtableIter {
    /// What is still to come.
    pub closed spec fn remaining(&self) -> Seq<Pair> {
        if self.pos <= self.entries@.len() {
            pairs(self.entries@).skip(self.pos as int)
        } else {
            Seq::empty()
        }
    }

    /// A walk over what the table holds now.
    pub fn new(memtable: &Memtable) -> (r: Self)
        ensures
            r.remaining() == sorted::listing(memtable@),
            sorted::is_sorted(r.remaining()),
            sorted::first_wins(r.remaining()) == memtable@,
    {
        proof {
            use_type_invariant(memtable);
        }
        let entries = copy_pairs(&memtable.table);
        proof {
            assert(pairs(entries@).skip(0) =~= pairs(memtable.table@));
            sorted::lemma_listing(pairs(memtable.table@));
        }
        MemtableIter { entries, pos: 0 }
    }

    /// The next pair, if there is one.
    pub fn next(&mut self) -> (r: Option<(String, Info)>)
        ensures
            match r {
                None => old(self).remaining().len() == 0 && final(self).remaining() == old(
                    self,
                ).remaining(),
                Some(p) => {
                    &&& old(self).remaining().len() > 0
                    &&& (p.0@, p.1@) == old(self).remaining()[0]
                    &&& final(self).remaining() == old(self).remaining().drop_first()
                },
            },
    {
        if self.pos >= self.entries.len() {
            return None;
        }
        let item = &self.entries[self.pos];
        let copy = (item.0.clone(), item.1.clone());
        self.pos += 1;
        assert(self.remaining() =~= old(self).remaining().drop_first());
        Some(copy)
    }
}

/// The pair that an object with these members stands for.
pub fn make_pair(key: Option<String>, value: Option<String>, deleted: Option<bool>) -> (r: Result<
    (String, Info),
    StoreError,
>)
    ensures
        match r {
            Ok(p) => members_pair(
                text::option_view(key),
                text::option_view(value),
                deleted,
            ) == Ok::<Pair, StoreError>((p.0@, p.1@)),
            Err(e) => members_pair(
                text::option_view(key),
                text::option_view(value),
                deleted,
            ) == Err::<Pair, StoreError>(e),
        },
        match r {
            Ok(p) => {
                &&& key is Some && p.0@ == key->0@
                &&& value is Some && p.1.value@ == value->0@
                &&& deleted == Some(p.1.deleted)
            },
            Err(e) => e == StoreError::BadRecord && (key is None || value is None || deleted
                is None),
        },
{
    match (key, value, deleted) {
        (Some(key), Some(value), Some(deleted)) => Ok((key, Info { value, deleted })),
        _ => Err(StoreError::BadRecord),
    }
}

/// Walks the pairs of a table, line by line.
pub struct SSTableIter {
    lines: Vec<String>,
    pos: usize,
}

impl SSTableIter {
    /// The lines that are still to come.
    pub closed spec fn remaining(&self) -> Seq<Seq<char>> {
        if self.pos <= self.lines@.len() {
            text::views(self.lines@).skip(self.pos as int)
        } else {
            Seq::empty()
        }
    }

    /// A walk over the table with this text.
    pub fn new(content: &str) -> (r: Self)
        ensures
            r.remaining() == text::lines(content@),
    {
        let lines = split_lines(content);
        assert(text::views(lines@).skip(0) =~= text::views(lines@));
        SSTableIter { lines, pos: 0 }
    }

    /// The pair that the next line stands for, if there is one, or what is wrong with it.
    pub fn next(&mut self) -> (r: Result<Option<(String, Info)>, StoreError>)
        ensures
            old(self).remaining().len() == 0 ==> final(self).remaining() == old(self).remaining(),
            old(self).remaining().len() > 0 ==> final(self).remaining() == old(
                self,
            ).remaining().drop_first(),
            match r {
                Ok(None) => old(self).remaining().len() == 0,
                Ok(Some(p)) => old(self).remaining().len() > 0 && line_pair(
                    old(self).remaining()[0],
                ) == Ok::<Pair, StoreError>((p.0@, p.1@)),
                Err(e) => old(self).remaining().len() > 0 && line_pair(old(self).remaining()[0])
                    == Err::<Pair, StoreError>(e),
            },
    {
        if self.pos >= self.lines.len() {
            return Ok(None);
        }
        let line: String = self.lines[self.pos].clone();
        self.pos += 1;
        assert(self.remaining() =~= old(self).remaining().drop_first());
        let document = match Document::parse(line.as_str()) {
            Ok(document) => document,
            Err(_) => {
                return Err(StoreError::BadJson);
            },
        };
        let members = (document.text("key"), document.text("value"), document.flag("deleted"));
        match make_pair(members.0, members.1, members.2) {
            Ok(p) => Ok(Some(p)),
            Err(e) => Err(e),
        }
    }
}

/// What a search of the lines of a table for a key finds, or what is wrong with the first line
/// that stands for no pair, if the key is not found before it.
pub open spec fn lines_search(ls: Seq<Seq<char>>, key: Seq<char>) -> Result<
    Option<InfoView>,
    StoreError,
>
    decreases ls.len(),
{
    if ls.len() == 0 {
        Ok(None)
    } else {
        match line_pair(ls[0]) {
            Err(e) => Err(e),
            Ok(p) => if p.0 == key {
                Ok(Some(p.1))
            } else {
                lines_search(ls.drop_first(), key)
            },
        }
    }
}

/// What a search of a table for a key finds.
pub open spec fn table_search(content: Seq<char>, key: Seq<char>) -> Result<
    Option<InfoView>,
    StoreError,
> {
    lines_search(text::lines(content), key)
}

/// Searches the table with this text for a key, up to the first line with that key.
pub fn search(content: &str, key: &str) -> (r: Result<Option<Info>, StoreError>)
    ensures
        match r {
            Ok(Some(info)) => table_search(content@, key@) == Ok::<Option<InfoView>, StoreError>(
                Some(info@),
            ),
            Ok(None) => table_search(content@, key@) == Ok::<Option<InfoView>, StoreError>(None),
            Err(e) => table_search(content@, key@) == Err::<Option<InfoView>, StoreError>(e),
        },
{
    let mut iter = SSTableIter::new(content);
    loop
        invariant
            lines_search(iter.remaining(), key@) == table_search(content@, key@),
        decreases iter.remaining().len(),
    {
        match iter.next() {
            Err(e) => {
                return Err(e);
            },
            Ok(None) => {
                return Ok(None);
            },
            Ok(Some((k, info))) => {
                if str_eq(key, k.as_str()) {
                    return Ok(Some(info));
                }
            },
        }
    }
}

/// Reads all pairs of the table with this text.
pub fn read_table(content: &str) -> (r: Result<Vec<(String, Info)>, StoreError>)
    ensures
        match r {
            Ok(v) => table_pairs(content@) == Ok::<Seq<Pair>, StoreError>(pairs(v@)),
            Err(e) => table_pairs(content@) == Err::<Seq<Pair>, StoreError>(e),
        },
{
    let mut iter = SSTableIter::new(content);
    let mut v: Vec<(String, Info)> = Vec::new();
    assert(match lines_pairs(iter.remaining()) {
        Err(e) => true,
        Ok(rest) => pairs(v@) + rest =~= rest,
    });
    loop
        invariant
            table_pairs(content@) == match lines_pairs(iter.remaining()) {
                Err(e) => Err::<Seq<Pair>, StoreError>(e),
                Ok(rest) => Ok::<Seq<Pair>, StoreError>(pairs(v@) + rest),
            },
        decreases iter.remaining().len(),
    {
        let ghost todo = iter.remaining();
        match iter.next() {
            Err(e) => {
                return Err(e);
            },
            Ok(None) => {
                assert(pairs(v@) + Seq::<Pair>::empty() =~= pairs(v@));
                return Ok(v);
            },
            Ok(Some(item)) => {
                proof {
                    let p = (item.0@, item.1@);
                    assert(pairs(v@.push(item)) =~= pairs(v@).push(p));
                    match lines_pairs(todo.drop_first()) {
                        Err(e) => {},
                        Ok(rest) => {
                            assert(pairs(v@) + (seq![p] + rest) =~= pairs(v@).push(p) + rest);
                        },
                    }
                }
                v.push(item);
            },
        }
    }
}

/// Where every line stands for a pair, the search finds what stands beside the first occurrence
/// of the key.
pub proof fn lemma_search(ls: Seq<Seq<char>>, s: Seq<Pair>, key: Seq<char>)
    requires
        lines_pairs(ls) == Ok::<Seq<Pair>, StoreError>(s),
    ensures
        lines_search(ls, key) == Ok::<Option<InfoView>, StoreError>(
            sorted::first_wins(s).get(key),
        ),
    decreases ls.len(),
{
    if ls.len() > 0 {
        match (line_pair(ls[0]), lines_pairs(ls.drop_first())) {
            (Ok(p), Ok(rest)) => {
                assert(s.drop_first() =~= rest);
                lemma_search(ls.drop_first(), rest, key);
            },
            _ => {},
        }
    }
}

/// The pairs of a table are those that it was made of.
pub proof fn lemma_table_pairs(s: Seq<Pair>)
    requires
        forall|i: int| 0 <= i < s.len() ==> reads_back(#[trigger] s[i]),
    ensures
        table_pairs(table_text(s)) == Ok::<Seq<Pair>, StoreError>(s),
{
    let ls = s.map_values(|p: Pair| pair_line(p));
    assert forall|i: int| 0 <= i < ls.len() implies text::is_line(#[trigger] ls[i]) by {
        assert(reads_back(s[i]));
    }
    text::lemma_lines_unlines(ls);
    lemma_lines_pairs(s);
}

proof fn lemma_lines_pairs(s: Seq<Pair>)
    requires
        forall|i: int| 0 <= i < s.len() ==> reads_back(#[trigger] s[i]),
    ensures
        lines_pairs(s.map_values(|p: Pair| pair_line(p))) == Ok::<Seq<Pair>, StoreError>(s),
    decreases s.len(),
{
    let ls = s.map_values(|p: Pair| pair_line(p));
    if s.len() > 0 {
        let t = s.drop_first();
        assert(reads_back(s[0]));
        assert forall|i: int| 0 <= i < t.len() implies reads_back(#[trigger] t[i]) by {
            assert(t[i] == s[i + 1]);
        }
        lemma_lines_pairs(t);
        assert(ls.drop_first() =~= t.map_values(|p: Pair| pair_line(p)));
        assert(s =~= seq![s[0]] + t);
    } else {
        assert(s =~= Seq::empty());
    }
}

/// A table with one more pair has one more line.
pub proof fn lemma_table_text_push(s: Seq<Pair>, p: Pair)
    ensures
        table_text(s.push(p)) == table_text(s) + pair_line(p).push('\n'),
{
    let f = |p: Pair| pair_line(p);
    assert(s.push(p).map_values(f) =~= s.map_values(f).push(pair_line(p)));
    assert(s.map_values(f).push(pair_line(p)).drop_last() =~= s.map_values(f));
}

} // verus!
