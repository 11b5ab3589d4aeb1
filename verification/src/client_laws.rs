//! What a script asks for, going by its text.

use crate::client;
use crate::client::CommandView;
use crate::text;
use vstd::prelude::*;

verus! {

/// Whether a word is `PUT`, in letters of either case.
pub open spec fn says_put(word: Seq<char>) -> bool {
    &&& word.len() == 3
    &&& word[0] == 'P' || word[0] == 'p'
    &&& word[1] == 'U' || word[1] == 'u'
    &&& word[2] == 'T' || word[2] == 't'
}

/// Whether a word is `GET`, in letters of either case.
pub open spec fn says_get(word: Seq<char>) -> bool {
    &&& word.len() == 3
    &&& word[0] == 'G' || word[0] == 'g'
    &&& word[1] == 'E' || word[1] == 'e'
    &&& word[2] == 'T' || word[2] == 't'
}

proof fn lemma_words(word: Seq<char>)
    ensures
        client::is_word(word, "PUT"@) <==> says_put(word),
        client::is_word(word, "GET"@) <==> says_get(word),
        says_put(word) || says_get(word) ==> !word.contains(' '),
{
    reveal_strlit("PUT");
    reveal_strlit("GET");
    let upper = word.map_values(|c: char| client::ascii_upper(c));
    assert("PUT"@ =~= seq!['P', 'U', 'T']);
    assert("GET"@ =~= seq!['G', 'E', 'T']);
    if word.len() == 3 {
        assert(upper[0] == client::ascii_upper(word[0]));
        assert(upper[1] == client::ascii_upper(word[1]));
        assert(upper[2] == client::ascii_upper(word[2]));
    }
    if says_put(word) {
        assert(upper =~= seq!['P', 'U', 'T']);
    }
    if says_get(word) {
        assert(upper =~= seq!['G', 'E', 'T']);
    }
    if client::is_word(word, "PUT"@) {
        assert(upper.len() == 3 && upper[0] == 'P' && upper[1] == 'U' && upper[2] == 'T');
    }
    if client::is_word(word, "GET"@) {
        assert(upper.len() == 3 && upper[0] == 'G' && upper[1] == 'E' && upper[2] == 'T');
    }
}

/// The word `PUT`, a key without a space, and any value, with a space before each, set that key to
/// that value, to the last character.
pub proof fn law_put_line(word: Seq<char>, key: Seq<char>, value: Seq<char>)
    requires
        says_put(word),
        !key.contains(' '),
    ensures
        client::line_command(word + seq![' '] + key + seq![' '] + value) == Some(
            CommandView::Put { key, value },
        ),
{
    let rest = key + seq![' '] + value;
    let line = word + seq![' '] + rest;
    lemma_words(word);
    text::law_splitn_more(word, ' ', rest, 3);
    text::law_splitn_more(key, ' ', value, 2);
    text::law_splitn_one(value, ' ', 1);
    assert(word + seq![' '] + key + seq![' '] + value =~= line);
    assert(text::splitn(line, 3, ' ') =~= seq![word, key, value]);
}

/// The word `PUT` with no space after it, or with no space after the key, asks for nothing.
pub proof fn law_put_short(word: Seq<char>, key: Seq<char>)
    requires
        says_put(word),
        !key.contains(' '),
    ensures
        client::line_command(word) is None,
        client::line_command(word + seq![' '] + key) is None,
{
    lemma_words(word);
    text::law_splitn_one(word, ' ', 3);
    text::law_splitn_more(word, ' ', key, 3);
    text::law_splitn_one(key, ' ', 2);
    assert(text::splitn(word + seq![' '] + key, 3, ' ') =~= seq![word, key]);
}

/// The word `GET` and a key without a space, with a space before it, ask for that key, whatever
/// follows after another space.
pub proof fn law_get_line(word: Seq<char>, key: Seq<char>, tail: Seq<char>)
    requires
        says_get(word),
        !key.contains(' '),
        tail.len() > 0 ==> tail[0] == ' ',
    ensures
        client::line_command(word + seq![' '] + key + tail) == Some(CommandView::Get { key }),
        client::line_command(word) is None,
{
    let rest = key + tail;
    let line = word + seq![' '] + rest;
    lemma_words(word);
    text::law_splitn_one(word, ' ', 3);
    text::law_splitn_more(word, ' ', rest, 3);
    assert(word + seq![' '] + key + tail =~= line);
    if tail.len() == 0 {
        assert(rest =~= key);
        text::law_splitn_one(key, ' ', 2);
    } else {
        let more = tail.drop_first();
        assert(rest =~= key + seq![' '] + more);
        text::law_splitn_more(key, ' ', more, 2);
        text::law_splitn_one(more, ' ', 1);
    }
    assert(text::splitn(line, 3, ' ')[1] == key);
}

/// A line whose first word, up to the first space, is neither `PUT` nor `GET` asks for something
/// else, and is kept whole.
pub proof fn law_unknown_line(word: Seq<char>, tail: Seq<char>)
    requires
        !word.contains(' '),
        !says_put(word),
        !says_get(word),
        tail.len() > 0 ==> tail[0] == ' ',
    ensures
        client::line_command(word + tail) == Some(CommandView::Unknown { line: word + tail }),
{
    lemma_words(word);
    if tail.len() == 0 {
        assert(word + tail =~= word);
        text::law_splitn_one(word, ' ', 3);
    } else {
        let rest = tail.drop_first();
        assert(word + tail =~= word + seq![' '] + rest);
        text::law_splitn_more(word, ' ', rest, 3);
    }
}

/// A line that is added to a script is asked for after those before it, unless there is only white
/// space in it, such as spaces and tabs.
pub proof fn law_script_line(script: Seq<char>, line: Seq<char>)
    requires
        text::is_ended(script),
        text::is_line(line),
    ensures
        client::filled(text::lines(Seq::empty())) == Seq::<Seq<char>>::empty(),
        (forall|i: int| 0 <= i < line.len() ==> #[trigger] line[i] == ' ' || line[i] == '\t')
            ==> client::filled(text::lines(script + line + seq!['\n'])) == client::filled(
            text::lines(script),
        ),
        (exists|i: int| 0 <= i < line.len() && '!' <= #[trigger] line[i] <= '~')
            ==> client::filled(text::lines(script + line + seq!['\n'])) == client::filled(
            text::lines(script),
        ).push(line),
        client::filled(text::lines(script + line + seq!['\n'])) == if text::is_blank(line) {
            client::filled(text::lines(script))
        } else {
            client::filled(text::lines(script)).push(line)
        },
{
    text::lemma_lines_push(script, line);
    assert(script + line + seq!['\n'] =~= script + line.push('\n'));
    let ls = text::lines(script);
    assert(ls.push(line).drop_last() =~= ls);
    text::lemma_split_one(Seq::empty(), '\n');
    assert(text::lines(Seq::empty()) =~= Seq::empty());
    if exists|i: int| 0 <= i < line.len() && '!' <= #[trigger] line[i] <= '~' {
        let i = choose|i: int| 0 <= i < line.len() && '!' <= #[trigger] line[i] <= '~';
        assert(!text::is_white_space(line[i]));
    }
}

} // verus!
