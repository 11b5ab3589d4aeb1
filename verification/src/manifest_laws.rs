//! What a manifest means, line by line, and what is read of any manifest that the store writes.

use crate::error::StoreError;
use crate::manifest;
use crate::manifest::LineView;
use crate::pattern;
use crate::text;
use vstd::prelude::*;

verus! {

/// A manifest with one more line.
pub open spec fn with_line(content: Seq<char>, line: Seq<char>) -> Seq<char> {
    content + line + seq!['\n']
}

proof fn lemma_with_line(content: Seq<char>, line: Seq<char>)
    requires
        text::is_ended(content),
        text::is_line(line),
    ensures
        text::lines(with_line(content, line)) == text::lines(content).push(line),
        text::is_ended(with_line(content, line)),
        text::lines(with_line(content, line)).drop_last() == text::lines(content),
{
    text::lemma_lines_push(content, line);
    assert(with_line(content, line) =~= content + line.push('\n'));
    assert(text::lines(content).push(line).drop_last() =~= text::lines(content));
}

/// An empty manifest lists no level.
pub proof fn law_empty()
    ensures
        manifest::manifest_levels(Seq::empty()) == Ok::<Seq<Seq<LineView>>, StoreError>(
            Seq::empty(),
        ),
        manifest::manifest_ids(Seq::empty()) == Ok::<Seq<usize>, StoreError>(Seq::empty()),
{
    text::lemma_split_one(Seq::empty(), '\n');
    assert(text::lines(Seq::empty()) =~= Seq::empty());
}

/// What is wrong with a manifest stays wrong with more lines.
pub proof fn law_wrong_stays(content: Seq<char>, line: Seq<char>)
    requires
        text::is_ended(content),
        text::is_line(line),
    ensures
        manifest::manifest_levels(content) matches Err(e) ==> manifest::manifest_levels(
            with_line(content, line),
        ) == Err::<Seq<Seq<LineView>>, StoreError>(e),
        manifest::manifest_ids(content) matches Err(e) ==> manifest::manifest_ids(
            with_line(content, line),
        ) == Err::<Seq<usize>, StoreError>(e),
{
    lemma_with_line(content, line);
}

/// `[L`, digits and `]` start a level, whatever the digits: it has no tables yet, and its next
/// number is 0. The levels before it are as they were.
pub proof fn law_header_line(content: Seq<char>, digits: Seq<char>)
    requires
        text::is_ended(content),
        digits.len() > 0,
        forall|i: int| 0 <= i < digits.len() ==> '0' <= #[trigger] digits[i] <= '9',
    ensures
        ({
            let more = with_line(content, seq!['[', 'L'] + digits + seq![']']);
            &&& manifest::manifest_levels(content) matches Ok(levels) ==> manifest::manifest_levels(
                more,
            ) == Ok::<Seq<Seq<LineView>>, StoreError>(levels.push(Seq::empty()))
            &&& manifest::manifest_ids(content) matches Ok(ids) ==> manifest::manifest_ids(more)
                == Ok::<Seq<usize>, StoreError>(ids.push(0))
        }),
{
    let line = seq!['[', 'L'] + digits + seq![']'];
    assert forall|i: int| 2 <= i < line.len() - 1 implies pattern::is_any_digit(#[trigger] line[i]) by {
        assert(line[i] == digits[i - 2]);
    }
    assert(!line.contains('\n')) by {
        assert forall|i: int| 0 <= i < line.len() implies line[i] != '\n' by {
            if 2 <= i < line.len() - 1 {
                assert(line[i] == digits[i - 2]);
            }
        }
    }
    lemma_with_line(content, line);
}

/// A line of spaces and tabs changes nothing.
pub proof fn law_blank_line(content: Seq<char>, line: Seq<char>)
    requires
        text::is_ended(content),
        forall|i: int| 0 <= i < line.len() ==> #[trigger] line[i] == ' ' || line[i] == '\t',
    ensures
        manifest::manifest_levels(with_line(content, line)) == manifest::manifest_levels(content),
        manifest::manifest_ids(with_line(content, line)) == manifest::manifest_ids(content),
{
    lemma_with_line(content, line);
    if pattern::is_level_header(line) {
        assert(line[0] == '[');
    }
    let n = text::position(line, '-');
    text::lemma_position(line, '-');
    if pattern::is_table_name(line) {
        assert(pattern::is_alphanumeric(line[0]));
    }
}

/// On level 0 a line that is not blank and starts no level is the name of a table, without keys.
/// It comes after the tables that are there.
pub proof fn law_unkeyed_line(content: Seq<char>, line: Seq<char>)
    requires
        text::is_ended(content),
        text::is_line(line),
        line.len() > 0,
        'a' <= line[0] <= 'z' || 'A' <= line[0] <= 'Z' || '0' <= line[0] <= '9',
    ensures
        manifest::manifest_levels(content) matches Ok(levels) ==> levels.len() == 1
            ==> manifest::manifest_levels(with_line(content, line)) == Ok::<
            Seq<Seq<LineView>>,
            StoreError,
        >(
            seq![
                levels[0].push(LineView { start_key: "NA"@, end_key: "NA"@, sst_name: line }),
            ],
        ),
        manifest::manifest_levels(content) matches Ok(levels) ==> levels.len() == 0
            ==> manifest::manifest_levels(with_line(content, line)) == Err::<
            Seq<Seq<LineView>>,
            StoreError,
        >(StoreError::BadManifest),
{
    lemma_with_line(content, line);
    assert(!text::is_white_space(line[0]));
    match manifest::manifest_levels(content) {
        Ok(levels) => {
            if levels.len() == 1 {
                let l = manifest::unkeyed(line);
                assert(manifest::add_table(levels, l) =~= seq![levels[0].push(l)]);
            }
        },
        Err(e) => {},
    }
}

/// What stands before, between and behind the marks of a line with a key range.
proof fn lemma_keyed(
    start: Seq<char>,
    end: Seq<char>,
    more: Seq<char>,
    name: Seq<char>,
    tail: Seq<char>,
)
    requires
        !start.contains('-') && !start.contains(':'),
        !end.contains('-') && !end.contains(':'),
        !more.contains(':'),
        more.len() > 0 ==> more[0] == '-',
        !name.contains(':'),
        tail.len() > 0 ==> tail[0] == ':',
    ensures
        manifest::keyed(start + seq!['-'] + end + more + seq![':'] + name + tail) == Some(
            LineView { start_key: start, end_key: end, sst_name: name },
        ),
{
    let range = start + seq!['-'] + end + more;
    let line = range + seq![':'] + name + tail;
    assert(!range.contains(':')) by {
        assert forall|i: int| 0 <= i < range.len() implies range[i] != ':' by {
            let a = start.len() as int;
            let b = end.len() as int;
            if i < a {
                assert(start.contains(start[i]));
            } else if a < i < a + 1 + b {
                assert(end.contains(end[i - a - 1]));
            } else if i > a + b {
                assert(more.contains(more[i - a - 1 - b]));
            }
        }
    }
    let behind = name + tail;
    assert(line =~= range.push(':') + behind);
    text::lemma_split_concat(range, ':', behind);
    text::lemma_split_one(range, ':');
    lemma_first_piece(name, ':', tail);
    let parts = text::split(line, ':');
    assert(parts[0] == range);
    assert(parts[1] == text::split(behind, ':')[0]);
    let ends = end + more;
    assert(range =~= start.push('-') + ends);
    text::lemma_split_concat(start, '-', ends);
    text::lemma_split_one(start, '-');
    lemma_first_piece(end, '-', more);
    let keys = text::split(range, '-');
    assert(keys[0] == start);
    assert(keys[1] == text::split(ends, '-')[0]);
}

/// What stands before the first separator is the first piece.
proof fn lemma_first_piece(a: Seq<char>, sep: char, tail: Seq<char>)
    requires
        !a.contains(sep),
        tail.len() > 0 ==> tail[0] == sep,
    ensures
        text::split(a + tail, sep).len() > 0,
        text::split(a + tail, sep)[0] == a,
{
    text::lemma_split_one(a, sep);
    if tail.len() > 0 {
        let rest = tail.drop_first();
        assert(a + tail =~= a.push(sep) + rest);
        text::lemma_split_concat(a, sep, rest);
    } else {
        assert(a + tail =~= a);
    }
}

/// On a level above 0 a line is a key range and a name: the start key is what stands before the
/// first `-`, the end key what stands between it and the next `-` or the first `:`, and the name
/// what stands between the first `:` and the next. However many of these marks follow, the line is
/// read; its table comes after those that are there, and the levels before are as they were.
pub proof fn law_keyed_line(
    content: Seq<char>,
    start: Seq<char>,
    end: Seq<char>,
    more: Seq<char>,
    name: Seq<char>,
    tail: Seq<char>,
)
    requires
        text::is_ended(content),
        !start.contains('-') && !start.contains(':'),
        !end.contains('-') && !end.contains(':'),
        !more.contains(':'),
        more.len() > 0 ==> more[0] == '-',
        !name.contains(':'),
        tail.len() > 0 ==> tail[0] == ':',
        text::is_line(start + seq!['-'] + end + more + seq![':'] + name + tail),
    ensures
        manifest::manifest_levels(content) matches Ok(levels) ==> levels.len() > 1
            ==> manifest::manifest_levels(
            with_line(content, start + seq!['-'] + end + more + seq![':'] + name + tail),
        ) == Ok::<Seq<Seq<LineView>>, StoreError>(
            levels.drop_last().push(
                levels.last().push(
                    LineView { start_key: start, end_key: end, sst_name: name },
                ),
            ),
        ),
{
    let line = start + seq!['-'] + end + more + seq![':'] + name + tail;
    lemma_with_line(content, line);
    lemma_keyed(start, end, more, name, tail);
    let n = start.len() as int;
    assert(line[n] == '-');
    assert(!text::is_white_space(line[n]));
    let colon = (start + seq!['-'] + end + more).len() as int;
    assert(line[colon] == ':');
    if pattern::is_level_header(line) {
        assert(line[0] == '[' && line[1] == 'L');
        if 2 <= n < line.len() - 1 {
            assert(pattern::is_any_digit(line[n]));
        }
    }
    match manifest::manifest_levels(content) {
        Ok(levels) => {
            let l = LineView { start_key: start, end_key: end, sst_name: name };
            if levels.len() > 1 {
                assert(manifest::add_table(levels, l) =~= levels.drop_last().push(
                    levels.last().push(l),
                ));
            }
        },
        Err(e) => {},
    }
}

/// On a level above 0 a line with a letter in it but without a `:`, or without a `-` before the
/// first `:`, is refused.
pub proof fn law_refused_line(content: Seq<char>, range: Seq<char>, tail: Seq<char>)
    requires
        text::is_ended(content),
        text::is_line(range + tail),
        range.len() > 0,
        'a' <= range[0] <= 'z' || 'A' <= range[0] <= 'Z' || '0' <= range[0] <= '9',
        !range.contains(':'),
        tail.len() > 0 ==> tail[0] == ':' && !range.contains('-'),
    ensures
        manifest::manifest_levels(content) matches Ok(levels) ==> levels.len() > 1
            ==> manifest::manifest_levels(with_line(content, range + tail)) == Err::<
            Seq<Seq<LineView>>,
            StoreError,
        >(StoreError::BadManifest),
{
    let line = range + tail;
    lemma_with_line(content, line);
    assert(line[0] == range[0]);
    assert(!text::is_white_space(line[0]));
    lemma_first_piece(range, ':', tail);
    if tail.len() == 0 {
        assert(line =~= range);
        text::lemma_split_one(range, ':');
    } else {
        text::lemma_split_one(range, '-');
    }
}

/// A line that is the name of a table, letters and digits, `-`, a number and `.json`, makes the
/// next number of its level that number and one more. A number too large for that is refused.
pub proof fn law_number_line(content: Seq<char>, word: Seq<char>, digits: Seq<char>)
    requires
        text::is_ended(content),
        word.len() > 0,
        forall|i: int|
            0 <= i < word.len() ==> 'a' <= #[trigger] word[i] <= 'z' || 'A' <= word[i] <= 'Z' || '0'
                <= word[i] <= '9',
        text::is_decimal(digits),
    ensures
        ({
            let line = word + seq!['-'] + digits + seq!['.', 'j', 's', 'o', 'n'];
            let more = manifest::manifest_ids(with_line(content, line));
            manifest::manifest_ids(content) matches Ok(ids) ==> if text::number(digits)
                >= usize::MAX {
                more == Err::<Seq<usize>, StoreError>(StoreError::BadNumber)
            } else if ids.len() > 0 {
                more == Ok::<Seq<usize>, StoreError>(
                    ids.drop_last().push((text::number(digits) + 1) as usize),
                )
            } else {
                more == Ok::<Seq<usize>, StoreError>(ids)
            }
        }),
{
    let line = word + seq!['-'] + digits + seq!['.', 'j', 's', 'o', 'n'];
    let n = word.len() as int;
    assert forall|i: int| 0 <= i < n implies line[i] != '-' && pattern::is_alphanumeric(
        #[trigger] line[i],
    ) by {
        assert(line[i] == word[i]);
    }
    text::lemma_position_is(line, '-', n);
    assert forall|i: int| n < i < line.len() - 5 implies pattern::is_any_digit(#[trigger] line[i]) by {
        assert(line[i] == digits[i - n - 1]);
        assert(text::is_digit(digits[i - n - 1]));
    }
    assert(line.skip(line.len() - 5) =~= seq!['.', 'j', 's', 'o', 'n']);
    assert(line.subrange(n + 1, line.len() - 5) =~= digits);
    assert(!line.contains('\n')) by {
        assert forall|i: int| 0 <= i < line.len() implies line[i] != '\n' by {
            if i < n {
                assert(line[i] == word[i]);
            } else if n < i < line.len() - 5 {
                assert(pattern::is_any_digit(line[i]));
                assert(text::is_digit(digits[i - n - 1]));
            }
        }
    }
    assert(line[0] == word[0]);
    lemma_with_line(content, line);
    match manifest::manifest_ids(content) {
        Ok(ids) => {
            if ids.len() > 0 && text::number(digits) < usize::MAX {
                let next = (text::number(digits) + 1) as usize;
                assert(ids.update(ids.len() - 1, next) =~= ids.drop_last().push(next));
            }
        },
        Err(e) => {},
    }
}

/// A line with a `:` in it leaves the next numbers as they are.
pub proof fn law_no_number_line(content: Seq<char>, line: Seq<char>)
    requires
        text::is_ended(content),
        text::is_line(line),
        line.contains(':'),
    ensures
        manifest::manifest_ids(content) matches Ok(ids) ==> manifest::manifest_ids(
            with_line(content, line),
        ) == if pattern::is_level_header(line) {
            Ok::<Seq<usize>, StoreError>(ids.push(0))
        } else {
            Ok(ids)
        },
{
    lemma_with_line(content, line);
    manifest::lemma_colon(line);
}

/// There is a next number for each level, in any manifest.
pub proof fn law_number_for_each_level(content: Seq<char>)
    ensures
        (manifest::manifest_levels(content), manifest::manifest_ids(content)) matches (
            Ok(levels),
            Ok(ids),
        ) ==> levels.len() == ids.len(),
{
    lemma_number_for_each_level(text::lines(content));
}

proof fn lemma_number_for_each_level(ls: Seq<Seq<char>>)
    ensures
        (manifest::parse_lines(ls), manifest::ids_lines(ls)) matches (Ok(levels), Ok(ids))
            ==> levels.len() == ids.len(),
    decreases ls.len(),
{
    if ls.len() > 0 {
        lemma_number_for_each_level(ls.drop_last());
    }
}

/// The manifest of no levels is empty.
pub proof fn law_text_empty()
    ensures
        manifest::manifest_text(Seq::empty()) == Seq::<char>::empty(),
{
    assert(manifest::manifest_lines(Seq::empty()) =~= Seq::empty());
}

/// One more level is one more line: `[L`, how many levels there were before, and `]`.
pub proof fn law_text_level(levels: Seq<Seq<LineView>>)
    ensures
        manifest::manifest_text(levels.push(Seq::empty())) == with_line(
            manifest::manifest_text(levels),
            seq!['[', 'L'] + text::decimal(levels.len()) + seq![']'],
        ),
{
    reveal_strlit("[L");
    reveal_strlit("]");
    let more = levels.push(Seq::empty());
    let h = seq!['[', 'L'] + text::decimal(levels.len()) + seq![']'];
    assert(manifest::header(levels.len()) =~= h);
    assert(more.drop_last() =~= levels);
    assert(more.last().map_values(|l: LineView| manifest::table_line(levels.len(), l))
        =~= Seq::empty());
    let ls = manifest::manifest_lines(levels);
    assert(manifest::manifest_lines(more) =~= ls.push(h));
    assert(ls.push(h).drop_last() =~= ls);
    assert(manifest::manifest_text(more) =~= with_line(manifest::manifest_text(levels), h));
}

/// One more table on the last level is one more line: on level 0 its name, on another level its
/// first key, `-`, its last key, `:` and its name.
pub proof fn law_text_table(levels: Seq<Seq<LineView>>, ls: Seq<LineView>, l: LineView)
    ensures
        manifest::manifest_text(levels.push(ls.push(l))) == with_line(
            manifest::manifest_text(levels.push(ls)),
            if levels.len() == 0 {
                l.sst_name
            } else {
                l.start_key + seq!['-'] + l.end_key + seq![':'] + l.sst_name
            },
        ),
{
    reveal_strlit("-");
    reveal_strlit(":");
    let n = levels.len();
    let line = if n == 0 {
        l.sst_name
    } else {
        l.start_key + seq!['-'] + l.end_key + seq![':'] + l.sst_name
    };
    assert(manifest::table_line(n, l) =~= line);
    let f = |l: LineView| manifest::table_line(n, l);
    let before = levels.push(ls);
    let after = levels.push(ls.push(l));
    assert(before.drop_last() =~= levels && after.drop_last() =~= levels);
    assert(ls.push(l).map_values(f) =~= ls.map_values(f).push(line));
    let a = manifest::manifest_lines(before);
    assert(manifest::manifest_lines(after) =~= a.push(line));
    assert(a.push(line).drop_last() =~= a);
    assert(manifest::manifest_text(after) =~= with_line(manifest::manifest_text(before), line));
}

/// Whether the names are those of tables, and no key holds a `:` or a line feed.
pub open spec fn is_legible(levels: Seq<Seq<LineView>>) -> bool {
    forall|i: int, j: int|
        0 <= i < levels.len() && 0 <= j < levels[i].len() ==> is_legible_line(
            i,
            #[trigger] levels[i][j],
        )
}

/// Whether the name is that of a table; on level 0 there are no keys, and on another level none
/// holds a `:` or a line feed.
pub open spec fn is_legible_line(level: int, l: LineView) -> bool {
    &&& exists|id: nat| l.sst_name == #[trigger] manifest::table_name(id)
    &&& if level == 0 {
        l.start_key == "NA"@ && l.end_key == "NA"@
    } else {
        &&& !l.start_key.contains(':') && !l.start_key.contains('\n')
        &&& !l.end_key.contains(':') && !l.end_key.contains('\n')
    }
}

/// The text before the first `-`.
pub open spec fn before_hyphen(s: Seq<char>) -> Seq<char> {
    s.take(text::position(s, '-'))
}

/// What is read back of the entry of a table.
spec fn as_read(level: int, l: LineView) -> LineView {
    if level == 0 {
        l
    } else {
        LineView {
            start_key: before_hyphen(l.start_key),
            end_key: if l.start_key.contains('-') {
                before_hyphen(l.start_key.skip(text::position(l.start_key, '-') + 1))
            } else {
                before_hyphen(l.end_key)
            },
            sst_name: l.sst_name,
        }
    }
}

/// A text is what stands before the first `-`, and what follows.
proof fn lemma_before_hyphen(s: Seq<char>)
    ensures
        s == before_hyphen(s) + s.skip(text::position(s, '-')),
        !before_hyphen(s).contains('-'),
        forall|c: char| #[trigger] before_hyphen(s).contains(c) ==> s.contains(c),
        forall|c: char| #[trigger] s.skip(text::position(s, '-')).contains(c) ==> s.contains(c),
        s.skip(text::position(s, '-')).len() > 0 ==> s.skip(text::position(s, '-'))[0] == '-',
        s.contains('-') <==> s.skip(text::position(s, '-')).len() > 0,
{
    let p = text::position(s, '-');
    text::lemma_position(s, '-');
    assert(s =~= s.take(p) + s.skip(p));
    assert forall|c: char| #[trigger] before_hyphen(s).contains(c) implies s.contains(c) by {
        let i = choose|i: int| 0 <= i < p && s.take(p)[i] == c;
        assert(s[i] == c);
    }
    assert forall|c: char| #[trigger] s.skip(p).contains(c) implies s.contains(c) by {
        let i = choose|i: int| 0 <= i < s.skip(p).len() && s.skip(p)[i] == c;
        assert(s[p + i] == c);
    }
}

proof fn lemma_line_read(content: Seq<char>, l: LineView)
    requires
        text::is_ended(content),
        is_legible_line(1, l),
        manifest::manifest_levels(content) matches Ok(levels) && levels.len() > 1,
    ensures
        ({
            let line = l.start_key + seq!['-'] + l.end_key + seq![':'] + l.sst_name;
            let levels = manifest::manifest_levels(content)->Ok_0;
            &&& manifest::manifest_levels(with_line(content, line)) == Ok::<
                Seq<Seq<LineView>>,
                StoreError,
            >(levels.drop_last().push(levels.last().push(as_read(1, l))))
            &&& text::is_ended(with_line(content, line))
        }),
{
    let id = choose|id: nat| l.sst_name == #[trigger] manifest::table_name(id);
    manifest::lemma_table_name(id);
    let line = l.start_key + seq!['-'] + l.end_key + seq![':'] + l.sst_name;
    let a = before_hyphen(l.start_key);
    let after_a = l.start_key.skip(text::position(l.start_key, '-'));
    lemma_before_hyphen(l.start_key);
    assert(text::is_line(line)) by {
        assert forall|i: int| 0 <= i < line.len() implies line[i] != '\n' by {
            let n = l.start_key.len() as int;
            let m = l.end_key.len() as int;
            if i < n {
                assert(l.start_key.contains(line[i]));
            } else if n < i < n + 1 + m {
                assert(l.end_key.contains(line[i]));
            } else if i > n + 1 + m {
                assert(l.sst_name[i - n - m - 2] == line[i]);
                assert(l.sst_name.contains(line[i]));
            }
        }
        assert(line.last() == l.sst_name.last());
    }
    lemma_with_line(content, line);
    if l.start_key.contains('-') {
        let rest = l.start_key.skip(text::position(l.start_key, '-') + 1);
        text::lemma_position(l.start_key, '-');
        assert(after_a =~= seq!['-'] + rest);
        lemma_before_hyphen(rest);
        let b = before_hyphen(rest);
        let after_b = rest.skip(text::position(rest, '-'));
        let more = after_b + seq!['-'] + l.end_key;
        assert forall|c: char| #[trigger] rest.contains(c) implies l.start_key.contains(c) by {
            let i = choose|i: int| 0 <= i < rest.len() && rest[i] == c;
            assert(after_a[i + 1] == c);
            assert(after_a.contains(c));
        }
        assert(!more.contains(':')) by {
            if more.contains(':') {
                let i = choose|i: int| 0 <= i < more.len() && more[i] == ':';
                if i < after_b.len() {
                    assert(after_b.contains(':'));
                    assert(rest.contains(':'));
                } else if i > after_b.len() {
                    assert(l.end_key[i - after_b.len() - 1] == ':');
                    assert(l.end_key.contains(':'));
                }
            }
        }
        assert(!a.contains(':') && !b.contains(':')) by {
            if b.contains(':') {
                assert(rest.contains(':'));
            }
        }
        assert(line =~= a + seq!['-'] + b + more + seq![':'] + l.sst_name + Seq::<char>::empty());
        law_keyed_line(content, a, b, more, l.sst_name, Seq::empty());
    } else {
        assert(after_a.len() == 0);
        assert(a =~= l.start_key);
        lemma_before_hyphen(l.end_key);
        let b = before_hyphen(l.end_key);
        let more = l.end_key.skip(text::position(l.end_key, '-'));
        assert(line =~= a + seq!['-'] + b + more + seq![':'] + l.sst_name + Seq::<char>::empty());
        law_keyed_line(content, a, b, more, l.sst_name, Seq::empty());
    }
}

proof fn lemma_levels_read(levels: Seq<Seq<LineView>>, ls: Seq<LineView>) -> (back: Seq<
    Seq<LineView>,
>)
    requires
        is_legible(levels.push(ls)),
    ensures
        manifest::manifest_levels(manifest::manifest_text(levels.push(ls))) == Ok::<
            Seq<Seq<LineView>>,
            StoreError,
        >(back),
        text::is_ended(manifest::manifest_text(levels.push(ls))),
        back.len() == levels.len() + 1,
        forall|i: int| 0 <= i < back.len() ==> (#[trigger] back[i]).len() == levels.push(ls)[i].len(),
        forall|i: int, j: int|
            0 <= i < back.len() && 0 <= j < back[i].len() ==> #[trigger] back[i][j] == as_read(
                i,
                levels.push(ls)[i][j],
            ),
    decreases levels.len(), ls.len(),
{
    let n = levels.len();
    let whole = levels.push(ls);
    if ls.len() > 0 {
        let front = ls.drop_last();
        let l = ls[ls.len() - 1];
        assert(front.push(l) =~= ls);
        let shorter = levels.push(front);
        assert forall|i: int, j: int|
            0 <= i < shorter.len() && 0 <= j < shorter[i].len() implies is_legible_line(
            i,
            #[trigger] shorter[i][j],
        ) by {
            assert(shorter[i][j] == whole[i][j]);
        }
        let before = lemma_levels_read(levels, front);
        let content = manifest::manifest_text(shorter);
        law_text_table(levels, front, l);
        assert(is_legible_line(n as int, whole[n as int][ls.len() - 1]));
        if n == 0 {
            let id = choose|id: nat| l.sst_name == #[trigger] manifest::table_name(id);
            lemma_name_start(id);
            law_unkeyed_line(content, l.sst_name);
            lemma_with_line(content, l.sst_name);
            let back = seq![before[0].push(l)];
            assert forall|i: int, j: int|
                0 <= i < back.len() && 0 <= j < back[i].len() implies #[trigger] back[i][j]
                == as_read(i, whole[i][j]) by {
                if j < before[0].len() {
                    assert(back[i][j] == before[i][j]);
                    assert(whole[i][j] == shorter[i][j]);
                }
            }
            back
        } else {
            lemma_line_read(content, l);
            let back = before.drop_last().push(before.last().push(as_read(1, l)));
            assert forall|i: int, j: int|
                0 <= i < back.len() && 0 <= j < back[i].len() implies #[trigger] back[i][j]
                == as_read(i, whole[i][j]) by {
                if i < n || j < before[i].len() {
                    assert(back[i][j] == before[i][j]);
                    assert(whole[i][j] == shorter[i][j]);
                }
            }
            assert forall|i: int| 0 <= i < back.len() implies (#[trigger] back[i]).len()
                == whole[i].len() by {
                assert(before[i].len() == shorter[i].len());
            }
            back
        }
    } else {
        assert(ls =~= Seq::empty());
        law_text_level(levels);
        text::lemma_decimal(n);
        let d = text::decimal(n);
        assert forall|i: int| 0 <= i < d.len() implies '0' <= #[trigger] d[i] <= '9' by {
            assert(text::is_digit(d[i]));
        }
        let h = seq!['[', 'L'] + d + seq![']'];
        assert(text::is_line(h)) by {
            assert forall|i: int| 0 <= i < h.len() implies h[i] != '\n' by {
                if 2 <= i < h.len() - 1 {
                    assert(h[i] == d[i - 2]);
                }
            }
        }
        if n == 0 {
            assert(levels =~= Seq::empty());
            law_text_empty();
            law_empty();
            law_header_line(Seq::empty(), d);
            lemma_with_line(Seq::empty(), h);
            Seq::empty().push(Seq::empty())
        } else {
            let front = levels.drop_last();
            let last = levels.last();
            assert(front.push(last) =~= levels);
            assert forall|i: int, j: int|
                0 <= i < levels.len() && 0 <= j < levels[i].len() implies is_legible_line(
                i,
                #[trigger] levels[i][j],
            ) by {
                assert(levels[i][j] == whole[i][j]);
            }
            let before = lemma_levels_read(front, last);
            let content = manifest::manifest_text(levels);
            law_header_line(content, d);
            lemma_with_line(content, h);
            let back = before.push(Seq::empty());
            assert forall|i: int, j: int|
                0 <= i < back.len() && 0 <= j < back[i].len() implies #[trigger] back[i][j]
                == as_read(i, whole[i][j]) by {
                assert(back[i][j] == before[i][j]);
                assert(whole[i][j] == levels[i][j]);
            }
            assert forall|i: int| 0 <= i < back.len() implies (#[trigger] back[i]).len()
                == whole[i].len() by {
                if i < n {
                    assert(before[i].len() == levels[i].len());
                }
            }
            back
        }
    }
}

/// The name of a table is `sst-`, its number and `.json`.
pub proof fn law_table_name(id: nat)
    ensures
        manifest::table_name(id) == seq!['s', 's', 't', '-'] + text::decimal(id) + seq![
            '.',
            'j',
            's',
            'o',
            'n',
        ],
{
    reveal_strlit("sst-");
    reveal_strlit(".json");
    assert(manifest::table_name(id) =~= seq!['s', 's', 't', '-'] + text::decimal(id) + seq![
        '.',
        'j',
        's',
        'o',
        'n',
    ]);
}

proof fn lemma_name_start(id: nat)
    ensures
        manifest::table_name(id).len() > 0,
        manifest::table_name(id)[0] == 's',
        text::is_line(manifest::table_name(id)),
{
    reveal_strlit("sst-");
    manifest::lemma_table_name(id);
}

/// Every manifest that the store writes can be read, whatever `-` its keys hold: it has as many
/// levels, as many tables on each, and these have their names. The start key is read up to its
/// first `-`, and the end key up to its first `-` if there is none in the start key; so both are
/// read whole where they hold none.
pub proof fn law_written_is_read(levels: Seq<Seq<LineView>>)
    requires
        is_legible(levels),
    ensures
        manifest::manifest_levels(manifest::manifest_text(levels)) is Ok,
        ({
            let back = manifest::manifest_levels(manifest::manifest_text(levels))->Ok_0;
            &&& back.len() == levels.len()
            &&& forall|i: int|
                0 <= i < levels.len() ==> (#[trigger] back[i]).len() == levels[i].len()
            &&& forall|i: int, j: int|
                0 <= i < levels.len() && 0 <= j < levels[i].len() ==> {
                    let l = levels[i][j];
                    let r = #[trigger] back[i][j];
                    &&& r.sst_name == l.sst_name
                    &&& i == 0 ==> r == l
                    &&& i > 0 ==> r.start_key == l.start_key.take(
                        text::position(l.start_key, '-'),
                    )
                    &&& i > 0 && !l.start_key.contains('-') ==> r.start_key == l.start_key
                        && r.end_key == l.end_key.take(text::position(l.end_key, '-'))
                }
        }),
{
    if levels.len() > 0 {
        let front = levels.drop_last();
        let last = levels.last();
        assert(front.push(last) =~= levels);
        let back = lemma_levels_read(front, last);
        assert forall|i: int, j: int| 0 <= i < levels.len() && 0 <= j < levels[i].len() implies {
            let l = levels[i][j];
            let r = #[trigger] back[i][j];
            i > 0 && !l.start_key.contains('-') ==> r.start_key == l.start_key
        } by {
            let l = levels[i][j];
            lemma_before_hyphen(l.start_key);
            if !l.start_key.contains('-') {
                assert(before_hyphen(l.start_key) =~= l.start_key);
            }
            assert(back[i][j] == as_read(i, l));
        }
    } else {
        assert(levels =~= Seq::empty());
        law_text_empty();
        law_empty();
    }
}

} // verus!
