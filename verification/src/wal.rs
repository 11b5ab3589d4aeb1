//! The write-ahead log: what was put and deleted since the table in memory was last written out.

use crate::error::StoreError;
use crate::json;
use crate::json::{render, Document, Member};
use crate::sorted::{InfoView, Pair};
use crate::table::{Entry, Info, Memtable};
use crate::text;
use crate::text::{split_lines, str_eq};
use vstd::prelude::*;

verus! {

/// The pair that a put leaves.
pub open spec fn put_pair(key: Seq<char>, value: Seq<char>) -> Pair {
    (key, InfoView { value, deleted: false })
}

/// The pair that a deletion leaves.
pub open spec fn delete_pair(key: Seq<char>) -> Pair {
    (key, InfoView { value: "0"@, deleted: true })
}

/// The line of the log that stands for a put.
pub open spec fn put_line(key: Seq<char>, value: Seq<char>) -> Seq<char> {
    json::json_object(
        seq![
            ("op"@, json::MemberView::Text("put"@)),
            ("key"@, json::MemberView::Text(key)),
            ("value"@, json::MemberView::Text(value)),
        ],
    )
}

/// The line of the log that stands for a deletion.
pub open spec fn delete_line(key: Seq<char>) -> Seq<char> {
    json::json_object(
        seq![
            ("op"@, json::MemberView::Text("delete"@)),
            ("key"@, json::MemberView::Text(key)),
        ],
    )
}

/// The pair that an operation with these members leaves: a value is needed for a put, and any
/// other operation is a deletion.
pub open spec fn operation_pair(
    op: Option<Seq<char>>,
    key: Option<Seq<char>>,
    value: Option<Seq<char>>,
) -> Result<Pair, StoreError> {
    match (op, key) {
        (Some(op), Some(key)) => if op == "put"@ {
            match value {
                Some(value) => Ok(put_pair(key, value)),
                None => Err(StoreError::BadRecord),
            }
        } else {
            Ok(delete_pair(key))
        },
        _ => Err(StoreError::BadRecord),
    }
}

/// The pair that a line of the log leaves.
pub open spec fn record_pair(line: Seq<char>) -> Result<Pair, StoreError> {
    if !json::json_valid(line) {
        Err(StoreError::BadJson)
    } else {
        operation_pair(
            json::json_text(line, "op"@),
            json::json_text(line, "key"@),
            json::json_text(line, "value"@),
        )
    }
}

/// The pairs that the lines of the log leave, or what is wrong with the first line that leaves
/// none.
pub open spec fn log_pairs(ls: Seq<Seq<char>>) -> Result<Seq<Pair>, StoreError>
    decreases ls.len(),
{
    if ls.len() == 0 {
        Ok(Seq::empty())
    } else {
        match (log_pairs(ls.drop_last()), record_pair(ls.last())) {
            (Err(e), _) => Err(e),
            (Ok(_), Err(e)) => Err(e),
            (Ok(s), Ok(p)) => Ok(s.push(p)),
        }
    }
}

/// A map after these pairs were put into it, one after the other.
pub open spec fn overlay(m: Map<Seq<char>, InfoView>, s: Seq<Pair>) -> Map<Seq<char>, InfoView>
    decreases s.len(),
{
    if s.len() == 0 {
        m
    } else {
        overlay(m, s.drop_last()).insert(s.last().0, s.last().1)
    }
}

/// What the log with this text makes of an empty table.
pub open spec fn log_map(content: Seq<char>) -> Result<Map<Seq<char>, InfoView>, StoreError> {
    match log_pairs(text::lines(content)) {
        Err(e) => Err(e),
        Ok(s) => Ok(overlay(Map::empty(), s)),
    }
}

/// Whether a line of the log leaves this pair and can be read back from the log.
pub open spec fn logs(line: Seq<char>, p: Pair) -> bool {
    &&& record_pair(line) == Ok::<Pair, StoreError>(p)
    &&& text::is_line(line)
}

/// The line of the log that stands for a put.
pub fn log_put(key: &str, value: &str) -> (r: String)
    ensures
        r@ == put_line(key@, value@),
        logs(r@, put_pair(key@, value@)),
        json::json_valid(r@),
        json::json_text(r@, "op"@) == Some("put"@),
        json::json_text(r@, "key"@) == Some(key@),
        json::json_text(r@, "value"@) == Some(value@),
        !r@.contains('\n'),
{
    let mut members: Vec<(String, Member)> = Vec::new();
    members.push(("op".to_owned(), Member::Text("put".to_owned())));
    members.push(("key".to_owned(), Member::Text(key.to_owned())));
    members.push(("value".to_owned(), Member::Text(value.to_owned())));
    let ghost v = json::member_views(members@);
    proof {
        reveal_strlit("op");
        reveal_strlit("key");
        reveal_strlit("value");
        assert("op"@.len() == 2 && "key"@.len() == 3 && "value"@.len() == 5);
        assert(v =~= seq![
            ("op"@, json::MemberView::Text("put"@)),
            ("key"@, json::MemberView::Text(key@)),
            ("value"@, json::MemberView::Text(value@)),
        ]);
    }
    let r = render(&members);
    proof {
        assert(v[0] == ("op"@, json::MemberView::Text("put"@)));
        assert(v[1] == ("key"@, json::MemberView::Text(key@)));
        assert(v[2] == ("value"@, json::MemberView::Text(value@)));
        if r@.len() > 0 {
            assert(r@[r@.len() - 1] == r@.last());
        }
    }
    r
}

/// The line of the log that stands for a deletion.
pub fn log_delete(key: &str) -> (r: String)
    ensures
        r@ == delete_line(key@),
        logs(r@, delete_pair(key@)),
        json::json_valid(r@),
        json::json_text(r@, "op"@) == Some("delete"@),
        json::json_text(r@, "key"@) == Some(key@),
        !r@.contains('\n'),
{
    let mut members: Vec<(String, Member)> = Vec::new();
    members.push(("op".to_owned(), Member::Text("delete".to_owned())));
    members.push(("key".to_owned(), Member::Text(key.to_owned())));
    let ghost v = json::member_views(members@);
    proof {
        reveal_strlit("op");
        reveal_strlit("key");
        reveal_strlit("put");
        reveal_strlit("delete");
        assert("op"@.len() == 2 && "key"@.len() == 3 && "put"@.len() == 3 && "delete"@.len() == 6);
        assert(v =~= seq![
            ("op"@, json::MemberView::Text("delete"@)),
            ("key"@, json::MemberView::Text(key@)),
        ]);
    }
    let r = render(&members);
    proof {
        assert(v[0] == ("op"@, json::MemberView::Text("delete"@)));
        assert(v[1] == ("key"@, json::MemberView::Text(key@)));
        if r@.len() > 0 {
            assert(r@[r@.len() - 1] == r@.last());
        }
    }
    r
}

/// The entry that an operation with these members leaves.
pub fn read_operation(op: Option<String>, key: Option<String>, value: Option<String>) -> (r: Result<
    Entry,
    StoreError,
>)
    ensures
        match r {
            Ok(entry) => operation_pair(
                text::option_view(op),
                text::option_view(key),
                text::option_view(value),
            ) == Ok::<Pair, StoreError>(entry@),
            Err(e) => operation_pair(
                text::option_view(op),
                text::option_view(key),
                text::option_view(value),
            ) == Err::<Pair, StoreError>(e),
        },
        match r {
            Ok(entry) => {
                &&& op is Some
                &&& key is Some && entry@.0 == key->0@
                &&& if op->0@ == "put"@ {
                    value is Some && entry@.1 == (InfoView { value: value->0@, deleted: false })
                } else {
                    entry@.1 == (InfoView { value: "0"@, deleted: true })
                }
            },
            Err(e) => e == StoreError::BadRecord && (op is None || key is None || (op->0@ == "put"@
                && value is None)),
        },
{
    let (op, key) = match (op, key) {
        (Some(op), Some(key)) => (op, key),
        _ => {
            return Err(StoreError::BadRecord);
        },
    };
    if str_eq(op.as_str(), "put") {
        match value {
            Some(value) => Ok(Entry::new(key, Info { value: value, deleted: false })),
            None => Err(StoreError::BadRecord),
        }
    } else {
        Ok(Entry::new(key, Info { value: "0".to_owned(), deleted: true }))
    }
}

/// The entry that a line of the log leaves.
fn read_record(line: &str) -> (r: Result<Entry, StoreError>)
    ensures
        match r {
            Ok(entry) => record_pair(line@) == Ok::<Pair, StoreError>(entry@),
            Err(e) => record_pair(line@) == Err::<Pair, StoreError>(e),
        },
{
    let document = match Document::parse(line) {
        Ok(document) => document,
        Err(_) => {
            return Err(StoreError::BadJson);
        },
    };
    read_operation(document.text("op"), document.text("key"), document.text("value"))
}

/// Puts entries into the table, one after the other.
pub fn put_all(entries: Vec<Entry>, memtable: &mut Memtable)
    ensures
        final(memtable)@ == overlay(
            old(memtable)@,
            entries@.map_values(|entry: Entry| entry@),
        ),
{
    let ghost all = entries@;
    let ghost s = all.map_values(|entry: Entry| entry@);
    assert(s.take(0) =~= Seq::empty());
    for entry in it: entries
        invariant
            it.seq() == all,
            s == all.map_values(|entry: Entry| entry@),
            memtable@ == overlay(old(memtable)@, s.take(it.index())),
    {
        proof {
            assert(s.take(it.index() + 1).drop_last() =~= s.take(it.index()));
            assert(s.take(it.index() + 1).last() == entry@);
        }
        memtable.insert(entry);
    }
    assert(s.take(s.len() as int) =~= s);
}

/// Puts into the table what the log with this text holds.
pub fn replay_wal(content: &str, memtable: &mut Memtable) -> (r: Result<(), StoreError>)
    ensures
        match log_pairs(text::lines(content@)) {
            Ok(s) => r is Ok && final(memtable)@ == overlay(old(memtable)@, s),
            Err(e) => r == Err::<(), StoreError>(e) && final(memtable)@ == old(memtable)@,
        },
{
    let lines = split_lines(content);
    let ghost ls = text::lines(content@);
    let mut entries: Vec<Entry> = Vec::new();
    let mut i: usize = 0;
    let ghost mut s: Seq<Pair> = Seq::empty();
    assert(ls.take(0) =~= Seq::empty());
    while i < lines.len()
        invariant
            i <= lines@.len(),
            ls == text::lines(content@),
            text::views(lines@) == ls,
            memtable@ == old(memtable)@,
            log_pairs(ls.take(i as int)) == Ok::<Seq<Pair>, StoreError>(s),
            s == entries@.map_values(|entry: Entry| entry@),
        decreases lines.len() - i,
    {
        let line = lines[i].as_str();
        proof {
            assert(ls[i as int] == line@);
            assert(ls.take(i + 1).drop_last() =~= ls.take(i as int));
            assert(ls.take(i + 1).last() == line@);
        }
        match read_record(line) {
            Err(e) => {
                proof {
                    lemma_log_error(ls, i + 1, e);
                }
                return Err(e);
            },
            Ok(entry) => {
                proof {
                    s = s.push(entry@);
                }
                entries.push(entry);
                assert(s =~= entries@.map_values(|entry: Entry| entry@));
            },
        }
        i += 1;
    }
    assert(ls.take(i as int) =~= ls);
    put_all(entries, memtable);
    Ok(())
}

proof fn lemma_log_error(ls: Seq<Seq<char>>, n: int, e: StoreError)
    requires
        0 <= n <= ls.len(),
        log_pairs(ls.take(n)) == Err::<Seq<Pair>, StoreError>(e),
    ensures
        log_pairs(ls) == Err::<Seq<Pair>, StoreError>(e),
    decreases ls.len() - n,
{
    if n == ls.len() {
        assert(ls.take(n) =~= ls);
    } else {
        assert(ls.take(n + 1).drop_last() =~= ls.take(n));
        lemma_log_error(ls, n + 1, e);
    }
}

} // verus!
