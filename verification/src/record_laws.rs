//! What the lines of tables and of the log stand for.

use crate::error::StoreError;
use crate::json;
use crate::sorted;
use crate::sorted::{InfoView, Pair};
use crate::table;
use crate::text;
use crate::wal;
use vstd::prelude::*;

verus! {

/// A line of a table stands for a pair if and only if it is JSON with a text `key`, a text `value`
/// and a flag `deleted`, whatever these hold; it then stands for just these.
pub proof fn law_table_line(line: Seq<char>)
    ensures
        ({
            let key = json::json_text(line, seq!['k', 'e', 'y']);
            let value = json::json_text(line, seq!['v', 'a', 'l', 'u', 'e']);
            let deleted = json::json_flag(line, seq!['d', 'e', 'l', 'e', 't', 'e', 'd']);
            &&& !json::json_valid(line) ==> table::line_pair(line) == Err::<Pair, StoreError>(
                StoreError::BadJson,
            )
            &&& json::json_valid(line) && (key is None || value is None || deleted is None)
                ==> table::line_pair(line) == Err::<Pair, StoreError>(StoreError::BadRecord)
            &&& json::json_valid(line) && key is Some && value is Some && deleted is Some
                ==> table::line_pair(line) == Ok::<Pair, StoreError>(
                (key->0, InfoView { value: value->0, deleted: deleted->0 }),
            )
        }),
{
    reveal_strlit("key");
    reveal_strlit("value");
    reveal_strlit("deleted");
    assert("key"@ =~= seq!['k', 'e', 'y']);
    assert("value"@ =~= seq!['v', 'a', 'l', 'u', 'e']);
    assert("deleted"@ =~= seq!['d', 'e', 'l', 'e', 't', 'e', 'd']);
}

/// A line of the log stands for what was set or deleted if and only if it is JSON with a text `op`
/// and a text `key`, and, where `op` is `put`, a text `value`. With any other `op` it stands for a
/// deleted key.
pub proof fn law_log_line(line: Seq<char>)
    ensures
        ({
            let op = json::json_text(line, seq!['o', 'p']);
            let key = json::json_text(line, seq!['k', 'e', 'y']);
            let value = json::json_text(line, seq!['v', 'a', 'l', 'u', 'e']);
            let puts = op == Some(seq!['p', 'u', 't']);
            let pair = wal::record_pair(line);
            &&& !json::json_valid(line) ==> pair == Err::<Pair, StoreError>(StoreError::BadJson)
            &&& json::json_valid(line) && (op is None || key is None || (puts && value is None))
                ==> pair == Err::<Pair, StoreError>(StoreError::BadRecord)
            &&& json::json_valid(line) && puts && key is Some && value is Some ==> pair == Ok::<
                Pair,
                StoreError,
            >((key->0, InfoView { value: value->0, deleted: false }))
            &&& json::json_valid(line) && op is Some && !puts && key is Some ==> pair == Ok::<
                Pair,
                StoreError,
            >((key->0, InfoView { value: seq!['0'], deleted: true }))
        }),
{
    reveal_strlit("op");
    reveal_strlit("key");
    reveal_strlit("value");
    reveal_strlit("put");
    reveal_strlit("0");
    assert("op"@ =~= seq!['o', 'p']);
    assert("key"@ =~= seq!['k', 'e', 'y']);
    assert("value"@ =~= seq!['v', 'a', 'l', 'u', 'e']);
    assert("put"@ =~= seq!['p', 'u', 't']);
    assert("0"@ =~= seq!['0']);
}

/// A table holds some pairs if and only if its lines, all of them and in order, stand for these.
pub proof fn law_table_holds(content: Seq<char>, s: Seq<Pair>)
    ensures
        table::table_pairs(content) == Ok::<Seq<Pair>, StoreError>(s) <==> s.len() == text::lines(
            content,
        ).len() && forall|i: int|
            0 <= i < s.len() ==> table::line_pair(#[trigger] text::lines(content)[i]) == Ok::<
                Pair,
                StoreError,
            >(s[i]),
{
    law_table_of_lines(text::lines(content), s);
}

/// Where every line of a table stands for a pair, the table holds these, in order and all of them.
pub proof fn law_table_of_lines(ls: Seq<Seq<char>>, s: Seq<Pair>)
    ensures
        table::lines_pairs(ls) == Ok::<Seq<Pair>, StoreError>(s) <==> s.len() == ls.len()
            && forall|i: int|
            0 <= i < ls.len() ==> table::line_pair(#[trigger] ls[i]) == Ok::<Pair, StoreError>(s[i]),
    decreases ls.len(),
{
    if ls.len() == 0 {
        if s.len() == 0 {
            assert(s =~= Seq::empty());
        }
    } else {
        let rest = ls.drop_first();
        if s.len() > 0 {
            law_table_of_lines(rest, s.drop_first());
        }
        if table::lines_pairs(ls) == Ok::<Seq<Pair>, StoreError>(s) {
            let tail = table::lines_pairs(rest)->Ok_0;
            assert(s =~= seq![table::line_pair(ls[0])->Ok_0] + tail);
            assert(s.drop_first() =~= tail);
            assert forall|i: int| 0 <= i < ls.len() implies table::line_pair(#[trigger] ls[i])
                == Ok::<Pair, StoreError>(s[i]) by {
                if i > 0 {
                    assert(rest[i - 1] == ls[i]);
                }
            }
        }
        if s.len() == ls.len() && (forall|i: int|
            0 <= i < ls.len() ==> table::line_pair(#[trigger] ls[i]) == Ok::<Pair, StoreError>(
                s[i],
            )) {
            assert forall|i: int| 0 <= i < rest.len() implies table::line_pair(#[trigger] rest[i])
                == Ok::<Pair, StoreError>(s.drop_first()[i]) by {
                assert(rest[i] == ls[i + 1]);
            }
            assert(table::line_pair(ls[0]) == Ok::<Pair, StoreError>(s[0]));
            assert(seq![s[0]] + s.drop_first() =~= s);
        }
    }
}

/// What is wrong with a table is what is wrong with the first of its lines that stands for no pair.
pub proof fn law_table_wrong(content: Seq<char>, n: int, e: StoreError)
    requires
        0 <= n < text::lines(content).len(),
        forall|i: int|
            0 <= i < n ==> table::line_pair(#[trigger] text::lines(content)[i]) is Ok,
        table::line_pair(text::lines(content)[n]) == Err::<Pair, StoreError>(e),
    ensures
        table::table_pairs(content) == Err::<Seq<Pair>, StoreError>(e),
{
    lemma_table_wrong(text::lines(content), n, e);
}

proof fn lemma_table_wrong(ls: Seq<Seq<char>>, n: int, e: StoreError)
    requires
        0 <= n < ls.len(),
        forall|i: int| 0 <= i < n ==> table::line_pair(#[trigger] ls[i]) is Ok,
        table::line_pair(ls[n]) == Err::<Pair, StoreError>(e),
    ensures
        table::lines_pairs(ls) == Err::<Seq<Pair>, StoreError>(e),
    decreases n,
{
    if n > 0 {
        let rest = ls.drop_first();
        assert(table::line_pair(ls[0]) is Ok);
        assert forall|i: int| 0 <= i < n - 1 implies table::line_pair(#[trigger] rest[i]) is Ok by {
            assert(rest[i] == ls[i + 1]);
        }
        lemma_table_wrong(rest, n - 1, e);
    }
}

/// A key is looked for line by line: the first line that stands for no pair, or has the key,
/// decides, whatever comes after it. Where there is none, the table does not have the key.
pub proof fn law_search_lines(content: Seq<char>, key: Seq<char>, n: int)
    requires
        0 <= n <= text::lines(content).len(),
        forall|i: int|
            0 <= i < n ==> table::line_pair(#[trigger] text::lines(content)[i]) is Ok
                && table::line_pair(text::lines(content)[i])->Ok_0.0 != key,
    ensures
        ({
            let ls = text::lines(content);
            let found = table::table_search(content, key);
            if n == ls.len() {
                found == Ok::<Option<InfoView>, StoreError>(None)
            } else {
                match table::line_pair(ls[n]) {
                    Err(e) => found == Err::<Option<InfoView>, StoreError>(e),
                    Ok(p) => p.0 == key ==> found == Ok::<Option<InfoView>, StoreError>(Some(p.1)),
                }
            }
        }),
{
    lemma_search_lines(text::lines(content), key, n);
}

proof fn lemma_search_lines(ls: Seq<Seq<char>>, key: Seq<char>, n: int)
    requires
        0 <= n <= ls.len(),
        forall|i: int|
            0 <= i < n ==> table::line_pair(#[trigger] ls[i]) is Ok && table::line_pair(
                ls[i],
            )->Ok_0.0 != key,
    ensures
        ({
            let found = table::lines_search(ls, key);
            if n == ls.len() {
                found == Ok::<Option<InfoView>, StoreError>(None)
            } else {
                match table::line_pair(ls[n]) {
                    Err(e) => found == Err::<Option<InfoView>, StoreError>(e),
                    Ok(p) => p.0 == key ==> found == Ok::<Option<InfoView>, StoreError>(Some(p.1)),
                }
            }
        }),
    decreases n,
{
    if n > 0 {
        let rest = ls.drop_first();
        assert(table::line_pair(ls[0]) is Ok);
        assert forall|i: int| 0 <= i < n - 1 implies table::line_pair(#[trigger] rest[i]) is Ok
            && table::line_pair(rest[i])->Ok_0.0 != key by {
            assert(rest[i] == ls[i + 1]);
        }
        lemma_search_lines(rest, key, n - 1);
    }
}

/// The table made of some pairs has a line for each of them, in order, with a line feed behind it.
pub proof fn law_table_text(s: Seq<Pair>, p: Pair)
    ensures
        table::table_text(Seq::empty()) == Seq::<char>::empty(),
        table::table_text(s.push(p)) == table::table_text(s) + table::pair_line(p) + seq!['\n'],
{
    table::lemma_table_text_push(s, p);
    assert(Seq::<Pair>::empty().map_values(|p: Pair| table::pair_line(p)) =~= Seq::empty());
    assert(table::table_text(s.push(p)) =~= table::table_text(s) + table::pair_line(p) + seq![
        '\n',
    ]);
}

/// Where every line of the log stands for a pair, the log holds these, in order and all of them.
pub proof fn law_log_of_lines(ls: Seq<Seq<char>>, s: Seq<Pair>)
    ensures
        wal::log_pairs(ls) == Ok::<Seq<Pair>, StoreError>(s) <==> s.len() == ls.len() && forall|
            i: int,
        |
            0 <= i < ls.len() ==> wal::record_pair(#[trigger] ls[i]) == Ok::<Pair, StoreError>(s[i]),
    decreases ls.len(),
{
    if ls.len() == 0 {
        if s.len() == 0 {
            assert(s =~= Seq::empty());
        }
    } else {
        let front = ls.drop_last();
        let n = ls.len() - 1;
        if s.len() > 0 {
            law_log_of_lines(front, s.drop_last());
        }
        if wal::log_pairs(ls) == Ok::<Seq<Pair>, StoreError>(s) {
            let head = wal::log_pairs(front)->Ok_0;
            assert(s =~= head.push(wal::record_pair(ls.last())->Ok_0));
            assert(s.drop_last() =~= head);
            assert forall|i: int| 0 <= i < ls.len() implies wal::record_pair(#[trigger] ls[i])
                == Ok::<Pair, StoreError>(s[i]) by {
                if i < n {
                    assert(front[i] == ls[i]);
                }
            }
        }
        if s.len() == ls.len() && (forall|i: int|
            0 <= i < ls.len() ==> wal::record_pair(#[trigger] ls[i]) == Ok::<Pair, StoreError>(
                s[i],
            )) {
            assert forall|i: int| 0 <= i < front.len() implies wal::record_pair(#[trigger] front[i])
                == Ok::<Pair, StoreError>(s.drop_last()[i]) by {
                assert(front[i] == ls[i]);
            }
            assert(wal::record_pair(ls[n]) == Ok::<Pair, StoreError>(s[n]));
            assert(s.drop_last().push(s[n]) =~= s);
        }
    }
}

/// What is wrong with the log is what is wrong with the first of its lines that stands for no pair.
pub proof fn law_log_wrong(ls: Seq<Seq<char>>, n: int, e: StoreError)
    requires
        0 <= n < ls.len(),
        forall|i: int| 0 <= i < n ==> wal::record_pair(#[trigger] ls[i]) is Ok,
        wal::record_pair(ls[n]) == Err::<Pair, StoreError>(e),
    ensures
        wal::log_pairs(ls) == Err::<Seq<Pair>, StoreError>(e),
    decreases ls.len(),
{
    let front = ls.drop_last();
    if n < front.len() {
        assert(front[n] == ls[n]);
        assert forall|i: int| 0 <= i < n implies wal::record_pair(#[trigger] front[i]) is Ok by {
            assert(front[i] == ls[i]);
        }
        law_log_wrong(front, n, e);
    } else {
        let s = Seq::new(front.len(), |i: int| wal::record_pair(front[i])->Ok_0);
        assert forall|i: int| 0 <= i < front.len() implies wal::record_pair(#[trigger] front[i])
            == Ok::<Pair, StoreError>(s[i]) by {
            assert(front[i] == ls[i]);
        }
        law_log_of_lines(front, s);
    }
}

/// What is set later replaces what was set before: a key has what the last pair with it gives it,
/// and what it had, if there is none.
pub proof fn law_last_wins(m: Map<Seq<char>, InfoView>, s: Seq<Pair>, key: Seq<char>)
    ensures
        !sorted::has_key(s, key) ==> wal::overlay(m, s).get(key) == m.get(key),
        forall|i: int|
            0 <= i < s.len() && s[i].0 == key && (forall|j: int|
                i < j < s.len() ==> (#[trigger] s[j]).0 != key) ==> wal::overlay(m, s).get(key)
                == Some(#[trigger] s[i].1),
    decreases s.len(),
{
    if s.len() > 0 {
        let front = s.drop_last();
        let n = s.len() - 1;
        law_last_wins(m, front, key);
        if s[n].0 != key {
            if sorted::has_key(front, key) {
                let k = choose|k: int| 0 <= k < front.len() && (#[trigger] front[k]).0 == key;
                assert(s[k].0 == key);
            }
            assert forall|i: int|
                0 <= i < s.len() && s[i].0 == key && (forall|j: int|
                    i < j < s.len() ==> (#[trigger] s[j]).0 != key) implies wal::overlay(m, s).get(
                key,
            ) == Some(#[trigger] s[i].1) by {
                assert(front[i].1 == s[i].1);
                assert forall|j: int| i < j < front.len() implies (#[trigger] front[j]).0 != key by {
                    assert(front[j] == s[j]);
                }
            }
        } else {
            assert forall|i: int|
                0 <= i < s.len() && s[i].0 == key && (forall|j: int|
                    i < j < s.len() ==> (#[trigger] s[j]).0 != key) implies wal::overlay(m, s).get(
                key,
            ) == Some(#[trigger] s[i].1) by {
                assert(s[n].0 == key);
                assert(i == n);
            }
        }
        if !sorted::has_key(s, key) {
            assert(s[n].0 != key);
            assert(!sorted::has_key(front, key)) by {
                if sorted::has_key(front, key) {
                    let k = choose|k: int| 0 <= k < front.len() && (#[trigger] front[k]).0 == key;
                    assert(s[k].0 == key);
                }
            }
        }
    }
}

/// The log leaves in an empty table what its lines, all of them and in order, stand for, if each
/// stands for a pair.
pub proof fn law_log_leaves(content: Seq<char>, s: Seq<Pair>)
    requires
        s.len() == text::lines(content).len(),
        forall|i: int|
            0 <= i < s.len() ==> wal::record_pair(#[trigger] text::lines(content)[i]) == Ok::<
                Pair,
                StoreError,
            >(s[i]),
    ensures
        wal::log_map(content) == Ok::<Map<Seq<char>, InfoView>, StoreError>(
            wal::overlay(Map::empty(), s),
        ),
{
    law_log_of_lines(text::lines(content), s);
}

/// Of several pairs with one key the first counts.
pub proof fn law_first_wins(s: Seq<Pair>, i: int, key: Seq<char>)
    ensures
        0 <= i < s.len() && s[i].0 == key && (forall|j: int|
            0 <= j < i ==> (#[trigger] s[j]).0 != key) ==> sorted::first_wins(s).get(key) == Some(
            s[i].1,
        ),
        !sorted::has_key(s, key) ==> sorted::first_wins(s).get(key) is None,
{
    sorted::lemma_first_wins_dom(s, key);
    if 0 <= i < s.len() && s[i].0 == key && (forall|j: int|
        0 <= j < i ==> (#[trigger] s[j]).0 != key) {
        sorted::lemma_first_wins_at(s, i);
    }
}

/// Of the pairs just those that are not deleted are live, and they are as they were.
pub proof fn law_live(m: Map<Seq<char>, InfoView>, key: Seq<char>)
    ensures
        m.contains_key(key) && !m[key].deleted ==> sorted::live(m).get(key) == Some(m[key]),
        !m.contains_key(key) || m[key].deleted ==> sorted::live(m).get(key) is None,
{
}

} // verus!
