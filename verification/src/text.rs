//! Text: building strings, ordering them, splitting them.

use vstd::prelude::*;
use vstd::string::StringExecFns;

verus! {

/// `String::push` appends one character to the end of the string.
pub assume_specification[ String::push ](s: &mut String, c: char)
    ensures
        final(s)@ == old(s)@.push(c),
;

/// Whether `a` comes before `b`: the first character that differs decides, by its code point,
/// and a proper prefix comes before what it is a prefix of.
pub open spec fn precedes(a: Seq<char>, b: Seq<char>) -> bool
    decreases a.len(),
{
    if b.len() == 0 {
        false
    } else if a.len() == 0 {
        true
    } else if a[0] != b[0] {
        (a[0] as int) < (b[0] as int)
    } else {
        precedes(a.drop_first(), b.drop_first())
    }
}

/// The order of strings is irreflexive.
pub proof fn lemma_precedes_irreflexive(a: Seq<char>)
    ensures
        !precedes(a, a),
    decreases a.len(),
{
    if a.len() > 0 {
        lemma_precedes_irreflexive(a.drop_first());
    }
}

/// The order of strings is transitive.
pub proof fn lemma_precedes_transitive(a: Seq<char>, b: Seq<char>, c: Seq<char>)
    requires
        precedes(a, b),
        precedes(b, c),
    ensures
        precedes(a, c),
    decreases a.len(),
{
    if a.len() > 0 && a[0] == b[0] && b[0] == c[0] {
        lemma_precedes_transitive(a.drop_first(), b.drop_first(), c.drop_first());
    }
}

/// Of two different strings one comes before the other.
pub proof fn lemma_precedes_total(a: Seq<char>, b: Seq<char>)
    ensures
        a == b || precedes(a, b) || precedes(b, a),
    decreases a.len(),
{
    if a.len() > 0 && b.len() > 0 {
        if a[0] == b[0] {
            lemma_precedes_total(a.drop_first(), b.drop_first());
            if a.drop_first() == b.drop_first() {
                assert(a =~= seq![a[0]] + a.drop_first());
                assert(b =~= seq![b[0]] + b.drop_first());
            }
        }
    } else if a.len() == 0 && b.len() == 0 {
        assert(a =~= b);
    }
}

/// Whether `a` comes before `b` in the order of strings.
pub fn str_precedes(a: &str, b: &str) -> (r: bool)
    ensures
        r == precedes(a@, b@),
{
    let mut x = a.chars();
    let mut y = b.chars();
    loop
        invariant
            precedes(a@, b@) == precedes(
                vstd::std_specs::iter::IteratorSpec::remaining(&x),
                vstd::std_specs::iter::IteratorSpec::remaining(&y),
            ),
            vstd::std_specs::iter::IteratorSpec::decrease(&x) is Some,
        decreases vstd::std_specs::iter::IteratorSpec::decrease(&x)->0,
    {
        match y.next() {
            None => {
                return false;
            },
            Some(d) => match x.next() {
                None => {
                    return true;
                },
                Some(c) => {
                    if c != d {
                        return c < d;
                    }
                },
            },
        }
    }
}

/// Whether two strings hold the same characters.
pub fn str_eq(a: &str, b: &str) -> (r: bool)
    ensures
        r == (a@ == b@),
{
    let x = to_chars(a);
    let y = to_chars(b);
    if x.len() != y.len() {
        return false;
    }
    let mut i: usize = 0;
    while i < x.len()
        invariant
            i <= x.len(),
            x.len() == y.len(),
            forall|j: int| 0 <= j < i ==> x[j] == y[j],
            x@ == a@,
            y@ == b@,
        decreases x.len() - i,
    {
        if x[i] != y[i] {
            return false;
        }
        i += 1;
    }
    assert(a@ =~= b@);
    true
}

/// The characters of a string.
pub fn to_chars(s: &str) -> (r: Vec<char>)
    ensures
        r@ == s@,
{
    let mut r: Vec<char> = Vec::new();
    for c in it: s.chars()
        invariant
            r@ == it.seq().take(it.index()),
            it.seq() == s@,
    {
        r.push(c);
    }
    r
}

/// The concatenation of two strings.
pub fn concat(a: &str, b: &str) -> (r: String)
    ensures
        r@ == a@ + b@,
{
    let mut r: String = a.to_owned();
    r.append(b);
    r
}

/// Adds a line to the end of a text.
pub fn add_line(text: &mut String, line: &str)
    ensures
        final(text)@ == old(text)@ + line@.push('\n'),
{
    text.append(line);
    text.push('\n');
    assert(text@ =~= old(text)@ + line@.push('\n'));
}

/// What the strings of a sequence hold.
pub open spec fn views(v: Seq<String>) -> Seq<Seq<char>> {
    v.map_values(|s: String| s@)
}

/// What a string holds, if there is one.
pub open spec fn option_view(s: Option<String>) -> Option<Seq<char>> {
    match s {
        Some(s) => Some(s@),
        None => None,
    }
}

/// Where `c` first stands in `s`, or the length of `s` where it does not.
pub open spec fn position(s: Seq<char>, c: char) -> int
    decreases s.len(),
{
    if s.len() == 0 || s[0] == c {
        0
    } else {
        1 + position(s.drop_first(), c)
    }
}

/// The pieces of `s` between the separators: one more than there are separators.
pub open spec fn split(s: Seq<char>, sep: char) -> Seq<Seq<char>>
    decreases s.len(),
{
    let n = position(s, sep);
    if 0 <= n < s.len() {
        seq![s.take(n)] + split(s.skip(n + 1), sep)
    } else {
        seq![s]
    }
}

/// The pieces of `s` between the first `n - 1` separators, the last holding all the rest.
pub open spec fn splitn(s: Seq<char>, n: nat, sep: char) -> Seq<Seq<char>>
    decreases n,
{
    let p = position(s, sep);
    if n == 0 {
        Seq::empty()
    } else if n > 1 && 0 <= p < s.len() {
        seq![s.take(p)] + splitn(s.skip(p + 1), (n - 1) as nat, sep)
    } else {
        seq![s]
    }
}

/// `s` without the carriage return at its end, if there is one.
pub open spec fn without_cr(s: Seq<char>) -> Seq<char> {
    if s.len() > 0 && s.last() == '\r' {
        s.drop_last()
    } else {
        s
    }
}

/// The lines of a text. A line ends with a line feed, or a carriage return and a line feed;
/// what follows the last line feed is a line too, unless it is empty.
pub open spec fn lines(text: Seq<char>) -> Seq<Seq<char>> {
    let pieces = split(text, '\n');
    let ended = pieces.drop_last().map_values(|p: Seq<char>| without_cr(p));
    if pieces.last().len() == 0 {
        ended
    } else {
        ended.push(pieces.last())
    }
}

/// The text made of these lines, each followed by a line feed.
pub open spec fn unlines(ls: Seq<Seq<char>>) -> Seq<char>
    decreases ls.len(),
{
    if ls.len() == 0 {
        Seq::empty()
    } else {
        unlines(ls.drop_last()) + ls.last().push('\n')
    }
}

/// Whether `lines` gives `s` back as it was written: no line feed in it, and no carriage return
/// at its end.
pub open spec fn is_line(s: Seq<char>) -> bool {
    &&& !s.contains('\n')
    &&& (s.len() > 0 ==> s.last() != '\r')
}

/// Whether the last line of the text has its line feed.
pub open spec fn is_ended(text: Seq<char>) -> bool {
    text.len() > 0 ==> text.last() == '\n'
}

pub proof fn lemma_position(s: Seq<char>, c: char)
    ensures
        0 <= position(s, c) <= s.len(),
        forall|i: int| 0 <= i < position(s, c) ==> s[i] != c,
        position(s, c) < s.len() ==> s[position(s, c)] == c,
        position(s, c) < s.len() <==> s.contains(c),
    decreases s.len(),
{
    if s.len() > 0 && s[0] != c {
        lemma_position(s.drop_first(), c);
        assert forall|i: int| 0 <= i < position(s, c) implies s[i] != c by {
            if i > 0 {
                assert(s.drop_first()[i - 1] == s[i]);
            }
        }
    }
}

pub proof fn lemma_position_is(s: Seq<char>, c: char, n: int)
    requires
        0 <= n <= s.len(),
        forall|i: int| 0 <= i < n ==> s[i] != c,
        n < s.len() ==> s[n] == c,
    ensures
        position(s, c) == n,
{
    lemma_position(s, c);
}

/// Splitting at a separator splits what is on either side of it.
pub proof fn lemma_split_concat(a: Seq<char>, sep: char, b: Seq<char>)
    ensures
        split(a.push(sep) + b, sep) == split(a, sep) + split(b, sep),
    decreases a.len(),
{
    let whole = a.push(sep) + b;
    lemma_position(a, sep);
    let n = position(a, sep);
    lemma_position_is(whole, sep, n);
    if n < a.len() {
        lemma_split_concat(a.skip(n + 1), sep, b);
        assert(whole.take(n) =~= a.take(n));
        assert(whole.skip(n + 1) =~= a.skip(n + 1).push(sep) + b);
        assert(split(whole, sep) =~= split(a, sep) + split(b, sep));
    } else {
        assert(whole.take(n) =~= a);
        assert(whole.skip(n + 1) =~= b);
    }
}

/// What holds no separator is one piece.
pub proof fn lemma_split_one(s: Seq<char>, sep: char)
    requires
        !s.contains(sep),
    ensures
        split(s, sep) == seq![s],
{
    lemma_position(s, sep);
}

/// There is always a piece.
pub proof fn lemma_split_some(s: Seq<char>, sep: char)
    ensures
        split(s, sep).len() >= 1,
{
}

/// A piece holds no separator, and no character that is not in the whole.
pub proof fn lemma_split_pieces(s: Seq<char>, sep: char, i: int, c: char)
    requires
        0 <= i < split(s, sep).len(),
        split(s, sep)[i].contains(c),
    ensures
        s.contains(c),
        c != sep,
    decreases s.len(),
{
    let n = position(s, sep);
    lemma_position(s, sep);
    let piece = split(s, sep)[i];
    let k = choose|k: int| 0 <= k < piece.len() && piece[k] == c;
    if n < s.len() {
        let rest = s.skip(n + 1);
        if i == 0 {
            assert(piece == s.take(n));
            assert(s[k] == c);
        } else {
            assert(piece == split(rest, sep)[i - 1]);
            lemma_split_pieces(rest, sep, i - 1, c);
            let m = choose|m: int| 0 <= m < rest.len() && rest[m] == c;
            assert(s[n + 1 + m] == c);
        }
    } else {
        assert(piece == s);
        assert(s[k] == c);
    }
}

/// A line holds no line feed.
pub proof fn lemma_lines_no_feed(text: Seq<char>, i: int)
    requires
        0 <= i < lines(text).len(),
    ensures
        !lines(text)[i].contains('\n'),
{
    let pieces = split(text, '\n');
    let line = lines(text)[i];
    lemma_split_some(text, '\n');
    if line.contains('\n') {
        let k = choose|k: int| 0 <= k < line.len() && line[k] == '\n';
        let piece = if i < pieces.len() - 1 {
            assert(line == without_cr(pieces[i]));
            pieces[i]
        } else {
            pieces.last()
        };
        assert(piece[k] == '\n');
        assert(piece.contains('\n'));
        lemma_split_pieces(text, '\n', i, '\n');
    }
}

/// With more than one piece allowed, what stands before the first separator is a piece of its own.
pub proof fn law_splitn_more(a: Seq<char>, sep: char, b: Seq<char>, n: nat)
    requires
        n > 1,
        !a.contains(sep),
    ensures
        splitn(a + seq![sep] + b, n, sep) == seq![a] + splitn(b, (n - 1) as nat, sep),
{
    let whole = a + seq![sep] + b;
    lemma_position(a, sep);
    assert forall|i: int| 0 <= i < a.len() implies whole[i] != sep by {
        assert(a.contains(a[i]));
        assert(whole[i] == a[i]);
    }
    lemma_position_is(whole, sep, a.len() as int);
    assert(whole.take(a.len() as int) =~= a);
    assert(whole.skip(a.len() as int + 1) =~= b);
}

/// With one piece allowed, or without a separator, the whole is one piece; with none allowed there
/// is none.
pub proof fn law_splitn_one(s: Seq<char>, sep: char, n: nat)
    ensures
        splitn(s, 0, sep) == Seq::<Seq<char>>::empty(),
        n == 1 || (n > 1 && !s.contains(sep)) ==> splitn(s, n, sep) == seq![s],
{
    lemma_position(s, sep);
}

/// To add a line to an ended text adds it to its lines.
pub proof fn lemma_lines_push(text: Seq<char>, line: Seq<char>)
    requires
        is_ended(text),
        is_line(line),
    ensures
        lines(text + line.push('\n')) == lines(text).push(line),
        is_ended(text + line.push('\n')),
{
    let empty = Seq::<char>::empty();
    lemma_split_one(line, '\n');
    lemma_split_one(empty, '\n');
    lemma_split_concat(line, '\n', empty);
    assert(line.push('\n') + empty =~= line.push('\n'));
    let tail = split(line.push('\n'), '\n');
    assert(tail =~= seq![line, empty]);
    let f = |p: Seq<char>| without_cr(p);
    if text.len() == 0 {
        assert(text + line.push('\n') =~= line.push('\n'));
        assert(text =~= empty);
        assert(tail.drop_last().map_values(f) =~= seq![line]);
        assert(lines(text) =~= Seq::empty());
    } else {
        let x = text.drop_last();
        assert(text =~= x.push('\n') + empty);
        lemma_split_concat(x, '\n', empty);
        let before = split(x, '\n');
        assert(text + line.push('\n') =~= x.push('\n') + line.push('\n'));
        lemma_split_concat(x, '\n', line.push('\n'));
        let after = split(text + line.push('\n'), '\n');
        assert(split(text, '\n') =~= before.push(empty));
        assert(after =~= before.push(line).push(empty));
        assert(before.push(empty).drop_last() =~= before);
        assert(after.drop_last() =~= before.push(line));
        assert(before.push(line).map_values(f) =~= before.map_values(f).push(line));
    }
}

/// The lines of a text are those that it was made of.
pub proof fn lemma_lines_unlines(ls: Seq<Seq<char>>)
    requires
        forall|i: int| 0 <= i < ls.len() ==> is_line(#[trigger] ls[i]),
    ensures
        lines(unlines(ls)) == ls,
        is_ended(unlines(ls)),
    decreases ls.len(),
{
    if ls.len() == 0 {
        lemma_split_one(Seq::<char>::empty(), '\n');
        assert(lines(unlines(ls)) =~= ls);
    } else {
        let front = ls.drop_last();
        assert forall|i: int| 0 <= i < front.len() implies is_line(#[trigger] front[i]) by {
            assert(front[i] == ls[i]);
        }
        lemma_lines_unlines(front);
        assert(is_line(ls[ls.len() - 1]));
        lemma_lines_push(unlines(front), ls.last());
        assert(front.push(ls.last()) =~= ls);
    }
}

/// The pieces of a string between the separators.
pub fn split_str(s: &str, sep: char) -> (r: Vec<String>)
    ensures
        views(r@) == split(s@, sep),
{
    let chars = to_chars(s);
    let mut r: Vec<String> = Vec::new();
    let mut piece: String = String::new();
    let mut i: usize = 0;
    assert(s@ =~= piece@ + chars@.skip(0));
    while i < chars.len()
        invariant
            i <= chars.len(),
            !piece@.contains(sep),
            split(s@, sep) == views(r@) + split(piece@ + chars@.skip(i as int), sep),
        decreases chars.len() - i,
    {
        let c = chars[i];
        let ghost rest = chars@.skip(i + 1);
        if c == sep {
            proof {
                assert(piece@ + chars@.skip(i as int) =~= piece@.push(sep) + rest);
                lemma_split_concat(piece@, sep, rest);
                lemma_split_one(piece@, sep);
                assert(views(r@.push(piece)) =~= views(r@).push(piece@));
                assert(views(r@) + (seq![piece@] + split(rest, sep)) =~= views(r@).push(piece@)
                    + split(rest, sep));
            }
            r.push(piece);
            piece = String::new();
            assert(piece@ + rest =~= rest);
        } else {
            assert(piece@ + chars@.skip(i as int) =~= piece@.push(c) + rest);
            let ghost before = piece@;
            piece.push(c);
            assert forall|j: int| 0 <= j < piece@.len() implies piece@[j] != sep by {
                if j < before.len() {
                    assert(before.contains(before[j]));
                }
            }
        }
        i += 1;
    }
    proof {
        assert(piece@ + chars@.skip(i as int) =~= piece@);
        lemma_split_one(piece@, sep);
        assert(views(r@.push(piece)) =~= views(r@) + seq![piece@]);
    }
    r.push(piece);
    r
}

/// The lines of a text.
pub fn split_lines(text: &str) -> (r: Vec<String>)
    ensures
        views(r@) == lines(text@),
{
    let pieces = split_str(text, '\n');
    let ghost parts = split(text@, '\n');
    proof {
        lemma_split_some(text@, '\n');
        assert(views(pieces@).len() == pieces@.len());
    }
    let mut r: Vec<String> = Vec::new();
    let mut i: usize = 0;
    while i + 1 < pieces.len()
        invariant
            i + 1 <= pieces.len(),
            views(pieces@) == parts,
            views(r@) == parts.take(i as int).map_values(|p: Seq<char>| without_cr(p)),
        decreases pieces.len() - i,
    {
        let line = strip_cr(pieces[i].as_str());
        proof {
            assert(parts[i as int] == pieces@[i as int]@);
            assert(views(r@.push(line)) =~= views(r@).push(line@));
            let f = |p: Seq<char>| without_cr(p);
            assert(parts.take(i + 1).map_values(f) =~= parts.take(i as int).map_values(f).push(
                without_cr(parts[i as int]),
            ));
        }
        r.push(line);
        i += 1;
    }
    proof {
        assert(parts.take(i as int) =~= parts.drop_last());
        assert(parts.last() == pieces@[i as int]@);
    }
    let last: String = pieces[i].clone();
    if !last.as_str().is_empty() {
        assert(views(r@.push(last)) =~= views(r@).push(last@));
        r.push(last);
    }
    r
}

/// A string without the carriage return at its end, if there is one.
fn strip_cr(s: &str) -> (r: String)
    ensures
        r@ == without_cr(s@),
{
    let chars = to_chars(s);
    let n = chars.len();
    if n == 0 || chars[n - 1] != '\r' {
        return s.to_owned();
    }
    let mut r: String = String::new();
    let mut i: usize = 0;
    while i + 1 < n
        invariant
            i + 1 <= n,
            n == chars@.len(),
            chars@ == s@,
            r@ == s@.take(i as int),
        decreases n - i,
    {
        assert(s@.take(i + 1) =~= s@.take(i as int).push(s@[i as int]));
        r.push(chars[i]);
        i += 1;
    }
    assert(s@.take(i as int) =~= s@.drop_last());
    r
}

/// The pieces of a string between the first `n - 1` separators, the last holding all the rest;
/// none where `n` is 0.
pub fn splitn_str(s: &str, n: usize, sep: char) -> (r: Vec<String>)
    ensures
        views(r@) == splitn(s@, n as nat, sep),
{
    let chars = to_chars(s);
    let mut r: Vec<String> = Vec::new();
    if n == 0 {
        assert(views(r@) =~= splitn(s@, 0, sep));
        return r;
    }
    let mut piece: String = String::new();
    let mut i: usize = 0;
    assert(s@ =~= piece@ + chars@.skip(0));
    assert(views(r@) + splitn(s@, n as nat, sep) =~= splitn(s@, n as nat, sep));
    while i < chars.len()
        invariant
            i <= chars.len(),
            r@.len() < n,
            r@.len() + 1 < n ==> !piece@.contains(sep),
            splitn(s@, n as nat, sep) == views(r@) + splitn(
                piece@ + chars@.skip(i as int),
                (n - r@.len()) as nat,
                sep,
            ),
        decreases chars.len() - i,
    {
        let c = chars[i];
        let ghost rest = chars@.skip(i + 1);
        if c == sep && r.len() + 1 < n {
            proof {
                let whole = piece@.push(sep) + rest;
                assert(piece@ + chars@.skip(i as int) =~= whole);
                lemma_position(piece@, sep);
                lemma_position_is(whole, sep, piece@.len() as int);
                assert(whole.take(piece@.len() as int) =~= piece@);
                assert(whole.skip(piece@.len() as int + 1) =~= rest);
                assert(views(r@.push(piece)) =~= views(r@).push(piece@));
                let tail = splitn(rest, (n - r@.len() - 1) as nat, sep);
                assert(views(r@) + (seq![piece@] + tail) =~= views(r@).push(piece@) + tail);
            }
            r.push(piece);
            piece = String::new();
            assert(piece@ + rest =~= rest);
        } else {
            assert(piece@ + chars@.skip(i as int) =~= piece@.push(c) + rest);
            let ghost before = piece@;
            piece.push(c);
            if r.len() + 1 < n {
                assert forall|j: int| 0 <= j < piece@.len() implies piece@[j] != sep by {
                    if j < before.len() {
                        assert(before.contains(before[j]));
                    }
                }
            }
        }
        i += 1;
    }
    proof {
        assert(piece@ + chars@.skip(i as int) =~= piece@);
        lemma_position(piece@, sep);
        assert(views(r@.push(piece)) =~= views(r@) + seq![piece@]);
    }
    r.push(piece);
    r
}

/// Whether a character is white space: the Unicode property `White_Space`.
pub open spec fn is_white_space(c: char) -> bool {
    ||| '\u{9}' <= c <= '\u{d}'
    ||| c == '\u{20}'
    ||| c == '\u{85}'
    ||| c == '\u{a0}'
    ||| c == '\u{1680}'
    ||| '\u{2000}' <= c <= '\u{200a}'
    ||| c == '\u{2028}'
    ||| c == '\u{2029}'
    ||| c == '\u{202f}'
    ||| c == '\u{205f}'
    ||| c == '\u{3000}'
}

/// Whether a text holds nothing but white space.
pub open spec fn is_blank(s: Seq<char>) -> bool {
    forall|i: int| 0 <= i < s.len() ==> is_white_space(#[trigger] s[i])
}

/// Whether a text holds nothing but white space.
pub fn str_is_blank(s: &str) -> (r: bool)
    ensures
        r == is_blank(s@),
{
    let chars = to_chars(s);
    let mut i: usize = 0;
    while i < chars.len()
        invariant
            i <= chars.len(),
            chars@ == s@,
            forall|j: int| 0 <= j < i ==> is_white_space(#[trigger] s@[j]),
        decreases chars.len() - i,
    {
        let c = chars[i];
        let white: bool = ('\u{9}' <= c && c <= '\u{d}') || c == '\u{20}' || c == '\u{85}' || c
            == '\u{a0}' || c == '\u{1680}' || ('\u{2000}' <= c && c <= '\u{200a}') || c
            == '\u{2028}' || c == '\u{2029}' || c == '\u{202f}' || c == '\u{205f}' || c
            == '\u{3000}';
        if !white {
            assert(!is_white_space(s@[i as int]));
            return false;
        }
        i += 1;
    }
    true
}

/// The decimal digit of a number below ten.
pub open spec fn digit(d: int) -> char {
    ('0' as int + d) as char
}

/// A number in decimal digits, without leading zeros.
pub open spec fn decimal(n: nat) -> Seq<char>
    decreases n,
{
    if n < 10 {
        seq![digit(n as int)]
    } else {
        decimal(n / 10).push(digit((n % 10) as int))
    }
}

/// Whether a character is one of the ten ASCII digits.
pub open spec fn is_digit(c: char) -> bool {
    '0' <= c <= '9'
}

/// Whether a text is made of ASCII digits, one at least.
pub open spec fn is_decimal(s: Seq<char>) -> bool {
    &&& s.len() > 0
    &&& forall|i: int| 0 <= i < s.len() ==> is_digit(#[trigger] s[i])
}

/// The number that ASCII digits stand for.
pub open spec fn number(s: Seq<char>) -> nat
    decreases s.len(),
{
    if s.len() == 0 {
        0
    } else {
        (number(s.drop_last()) * 10 + (s.last() as int - '0' as int)) as nat
    }
}

/// The digits of a number stand for that number.
pub proof fn lemma_decimal(n: nat)
    ensures
        is_decimal(decimal(n)),
        number(decimal(n)) == n,
    decreases n,
{
    if n < 10 {
        assert(decimal(n).drop_last() =~= Seq::<char>::empty());
        assert(number(Seq::<char>::empty()) == 0);
    } else {
        lemma_decimal(n / 10);
        assert(decimal(n).drop_last() =~= decimal(n / 10));
    }
}

/// Different numbers have different digits.
pub proof fn lemma_decimal_injective(m: nat, n: nat)
    requires
        decimal(m) == decimal(n),
    ensures
        m == n,
{
    lemma_decimal(m);
    lemma_decimal(n);
}

proof fn lemma_number_grows(s: Seq<char>, i: int)
    requires
        0 <= i <= s.len(),
        is_decimal(s),
    ensures
        number(s.take(i)) <= number(s),
    decreases s.len() - i,
{
    if i < s.len() {
        lemma_number_grows(s, i + 1);
        assert(s.take(i + 1).drop_last() =~= s.take(i));
        assert(is_digit(s[i]));
    } else {
        assert(s.take(i) =~= s);
    }
}

/// A number in decimal digits.
pub fn to_decimal(n: usize) -> (r: String)
    ensures
        r@ == decimal(n as nat),
    decreases n,
{
    let mut r: String = if n < 10 {
        String::new()
    } else {
        to_decimal(n / 10)
    };
    let d: u8 = (n % 10) as u8;
    let c: char = (48u8 + d) as char;
    assert(c == digit((n % 10) as int));
    r.push(c);
    assert(r@ =~= decimal(n as nat));
    r
}

/// The number that a text of ASCII digits stands for, if the text is one and the number fits.
pub fn parse_decimal(s: &str) -> (r: Option<usize>)
    ensures
        r is Some <==> is_decimal(s@) && number(s@) <= usize::MAX,
        r matches Some(n) ==> n == number(s@),
{
    let chars = to_chars(s);
    if chars.len() == 0 {
        return None;
    }
    let mut k: usize = 0;
    while k < chars.len()
        invariant
            k <= chars.len(),
            chars@ == s@,
            forall|j: int| 0 <= j < k ==> is_digit(#[trigger] s@[j]),
        decreases chars.len() - k,
    {
        if !('0' <= chars[k] && chars[k] <= '9') {
            assert(!is_digit(s@[k as int]));
            return None;
        }
        k += 1;
    }
    let mut n: usize = 0;
    let mut i: usize = 0;
    while i < chars.len()
        invariant
            i <= chars.len(),
            chars@ == s@,
            is_decimal(s@),
            n == number(s@.take(i as int)),
        decreases chars.len() - i,
    {
        let c = chars[i];
        assert(is_digit(s@[i as int]));
        let d: usize = (c as u8 - 48u8) as usize;
        proof {
            assert(s@.take(i + 1).drop_last() =~= s@.take(i as int));
            lemma_number_grows(s@, i + 1);
        }
        n = match n.checked_mul(10) {
            Some(m) => match m.checked_add(d) {
                Some(v) => v,
                None => {
                    return None;
                },
            },
            None => {
                return None;
            },
        };
        i += 1;
    }
    assert(s@.take(i as int) =~= s@);
    Some(n)
}

} // verus!
