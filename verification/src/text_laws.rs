//! What text is ordered and taken apart by, character by character.

use crate::text;
use vstd::prelude::*;

verus! {

/// Two texts are ordered by the first characters in which they differ, whatever comes after.
pub proof fn law_order_by_difference(
    same: Seq<char>,
    c: char,
    x: Seq<char>,
    d: char,
    y: Seq<char>,
)
    requires
        c != d,
    ensures
        text::precedes(same + seq![c] + x, same + seq![d] + y) <==> (c as u32) < (d as u32),
    decreases same.len(),
{
    let a = same + seq![c] + x;
    let b = same + seq![d] + y;
    if same.len() > 0 {
        let rest = same.drop_first();
        assert(a.drop_first() =~= rest + seq![c] + x);
        assert(b.drop_first() =~= rest + seq![d] + y);
        assert(a[0] == same[0] && b[0] == same[0]);
        law_order_by_difference(rest, c, x, d, y);
    } else {
        assert(a[0] == c && b[0] == d);
    }
}

/// A text comes before all that it is the beginning of, and neither after them nor before itself.
pub proof fn law_order_by_length(a: Seq<char>, more: Seq<char>)
    ensures
        text::precedes(a, a + more) <==> more.len() > 0,
        !text::precedes(a + more, a),
    decreases a.len(),
{
    if a.len() > 0 {
        assert((a + more).drop_first() =~= a.drop_first() + more);
        law_order_by_length(a.drop_first(), more);
    }
}

/// A text without the separator is one piece. One with it has what stands before the first as its
/// first piece, and then the pieces of what stands behind that.
pub proof fn law_split(a: Seq<char>, sep: char, b: Seq<char>)
    requires
        !a.contains(sep),
    ensures
        text::split(a, sep) == seq![a],
        text::split(a + seq![sep] + b, sep) == seq![a] + text::split(b, sep),
{
    text::lemma_split_one(a, sep);
    text::lemma_split_concat(a, sep, b);
    assert(a + seq![sep] + b =~= a.push(sep) + b);
}

/// An empty text has no lines. What stands before the first line feed is the first line, without a
/// carriage return at its end, if there is one; the rest has the other lines. A last line without a
/// line feed is one as it stands, unless it is empty.
pub proof fn law_lines(line: Seq<char>, rest: Seq<char>)
    requires
        !line.contains('\n'),
    ensures
        text::lines(Seq::empty()) == Seq::<Seq<char>>::empty(),
        line.len() > 0 ==> text::lines(line) == seq![line],
        text::lines(line + seq!['\r', '\n'] + rest) == seq![line] + text::lines(rest),
        line.len() == 0 || line.last() != '\r' ==> text::lines(line + seq!['\n'] + rest) == seq![
            line,
        ] + text::lines(rest),
{
    let empty = Seq::<char>::empty();
    law_split(empty, '\n', rest);
    assert(text::lines(empty) =~= Seq::empty());
    law_split(line, '\n', rest);
    if line.len() > 0 {
        assert(text::lines(line) =~= seq![line]);
    }
    lemma_first_line(line, rest);
    let ended = line.push('\r');
    assert(!ended.contains('\n')) by {
        assert forall|i: int| 0 <= i < ended.len() implies ended[i] != '\n' by {
            if i < line.len() {
                assert(line.contains(line[i]));
            }
        }
    }
    lemma_first_line(ended, rest);
    assert(ended + seq!['\n'] + rest =~= line + seq!['\r', '\n'] + rest);
    assert(ended.drop_last() =~= line);
}

proof fn lemma_first_line(line: Seq<char>, rest: Seq<char>)
    requires
        !line.contains('\n'),
    ensures
        text::lines(line + seq!['\n'] + rest) == seq![text::without_cr(line)] + text::lines(rest),
{
    let whole = line + seq!['\n'] + rest;
    law_split(line, '\n', rest);
    text::lemma_split_some(rest, '\n');
    let pieces = text::split(whole, '\n');
    let later = text::split(rest, '\n');
    let f = |p: Seq<char>| text::without_cr(p);
    assert(pieces.last() == later.last());
    assert(pieces.drop_last() =~= seq![line] + later.drop_last());
    assert(pieces.drop_last().map_values(f) =~= seq![text::without_cr(line)]
        + later.drop_last().map_values(f));
    assert(text::lines(whole) =~= seq![text::without_cr(line)] + text::lines(rest));
}

/// Lines are written one after the other, each with a line feed behind it.
pub proof fn law_unlines(ls: Seq<Seq<char>>, l: Seq<char>)
    ensures
        text::unlines(Seq::empty()) == Seq::<char>::empty(),
        text::unlines(ls.push(l)) == text::unlines(ls) + l + seq!['\n'],
        text::unlines(seq![l] + ls) == l + seq!['\n'] + text::unlines(ls),
    decreases ls.len(),
{
    assert(ls.push(l).drop_last() =~= ls);
    assert(text::unlines(ls.push(l)) =~= text::unlines(ls) + l + seq!['\n']);
    let all = seq![l] + ls;
    if ls.len() == 0 {
        assert(all.drop_last() =~= Seq::empty());
        assert(all.last() == l);
        assert(text::unlines(all.drop_last()) =~= Seq::empty());
        assert(text::unlines(ls) =~= Seq::empty());
        assert(text::unlines(all) =~= l + seq!['\n'] + text::unlines(ls));
    } else {
        law_unlines(ls.drop_last(), l);
        assert(all.drop_last() =~= seq![l] + ls.drop_last());
        assert(all.last() == ls.last());
        assert(text::unlines(all) =~= l + seq!['\n'] + text::unlines(ls));
    }
}

/// What white space is, by its numbers.
pub proof fn law_white_space(c: char)
    ensures
        text::is_white_space(c) <==> {
            let n = c as u32;
            ||| 9 <= n <= 13
            ||| n == 32
            ||| n == 133
            ||| n == 160
            ||| n == 5760
            ||| 8192 <= n <= 8202
            ||| n == 8232
            ||| n == 8233
            ||| n == 8239
            ||| n == 8287
            ||| n == 12288
        },
{
}

/// A text is blank if and only if what is before its last character is, and that is white space.
pub proof fn law_blank(s: Seq<char>, c: char)
    ensures
        text::is_blank(Seq::empty()),
        text::is_blank(s.push(c)) <==> text::is_blank(s) && text::is_white_space(c),
{
    let more = s.push(c);
    if text::is_blank(more) {
        assert forall|i: int| 0 <= i < s.len() implies text::is_white_space(#[trigger] s[i]) by {
            assert(more[i] == s[i]);
        }
        assert(more[s.len() as int] == c);
    }
}

/// Every number is written in decimal digits that stand for it, the first of them no 0 unless it is
/// the only one.
pub proof fn law_decimal(n: nat)
    ensures
        text::number(text::decimal(n)) == n,
        forall|i: int|
            0 <= i < text::decimal(n).len() ==> 48 <= (#[trigger] text::decimal(n)[i]) as u32 <= 57,
        text::decimal(n).len() > 0,
        text::decimal(n)[0] == '0' ==> text::decimal(n).len() == 1,
    decreases n,
{
    text::lemma_decimal(n);
    assert forall|i: int| 0 <= i < text::decimal(n).len() implies 48 <= (
    #[trigger] text::decimal(n)[i]) as u32 <= 57 by {
        assert(text::is_digit(text::decimal(n)[i]));
    }
    if n >= 10 {
        law_decimal(n / 10);
        let front = text::decimal(n / 10);
        assert(text::decimal(n)[0] == front[0]);
        if front[0] == '0' {
            assert(front =~= seq!['0']);
            assert(front.drop_last() =~= Seq::empty());
            assert(text::number(Seq::<char>::empty()) == 0);
            assert(text::number(front) == 0);
        }
    }
}

/// One more digit makes a number ten times as large and adds what the digit stands for. No
/// character but the ten digits is one.
pub proof fn law_number(s: Seq<char>, c: char)
    requires
        48 <= c as u32 <= 57,
    ensures
        text::number(Seq::empty()) == 0,
        text::number(s.push(c)) == 10 * text::number(s) + (c as u32 - 48),
        text::is_decimal(s.push(c)) <==> s.len() == 0 || text::is_decimal(s),
        !text::is_decimal(Seq::empty()),
{
    let more = s.push(c);
    assert(more.drop_last() =~= s);
    if text::is_decimal(more) && s.len() > 0 {
        assert forall|i: int| 0 <= i < s.len() implies text::is_digit(#[trigger] s[i]) by {
            assert(more[i] == s[i]);
        }
    }
}

/// A text with any other character is no number.
pub proof fn law_no_number(s: Seq<char>, i: int)
    requires
        0 <= i < s.len(),
        !(48 <= s[i] as u32 <= 57),
    ensures
        !text::is_decimal(s),
{
    assert(!text::is_digit(s[i]));
}

} // verus!
