//! What the client sends and reports.

use crate::client_laws;
use crate::text;
use crate::text::{split_lines, splitn_str, str_is_blank, to_chars};
use crate::utils::{GetResponse, PutResponse};
use vstd::prelude::*;
use vstd::string::StringExecFns;

verus! {

/// A script that checks that a server is there and serves.
pub const SMOKE_SCRIPT: &'static str =
    "PUT foo hello\nPUT bar world\nGET foo\nGET bar\nGET missing_key\n";

/// What a line of a script asks for.
#[derive(Debug, PartialEq, Eq)]
pub enum Command {
    /// Set a key.
    Put { key: String, value: String },
    /// Ask for a key.
    Get { key: String },
    /// Something else.
    Unknown { line: String },
}

/// What a `Command` holds.
pub enum CommandView {
    Put { key: Seq<char>, value: Seq<char> },
    Get { key: Seq<char> },
    Unknown { line: Seq<char> },
}

impl View for Command {
    type V = CommandView;

    open spec fn view(&self) -> CommandView {
        match self {
            Command::Put { key, value } => CommandView::Put { key: key@, value: value@ },
            Command::Get { key } => CommandView::Get { key: key@ },
            Command::Unknown { line } => CommandView::Unknown { line: line@ },
        }
    }
}

/// A character with an ASCII letter made a capital.
pub open spec fn ascii_upper(c: char) -> char {
    if 'a' <= c <= 'z' {
        (c as int - 'a' as int + 'A' as int) as char
    } else {
        c
    }
}

/// Whether a word in capitals is this word, which is `PUT` or `GET`: the capitals of no character
/// but an ASCII letter are made of the letters of these alone.
pub open spec fn is_word(s: Seq<char>, word: Seq<char>) -> bool {
    s.map_values(|c: char| ascii_upper(c)) == word
}

/// What a line of a script asks for: the first word says what, the second is the key, and what
/// follows, spaces included, is the value. Nothing where the key or the value is missing.
pub open spec fn line_command(line: Seq<char>) -> Option<CommandView> {
    let words = text::splitn(line, 3, ' ');
    if is_word(words[0], "PUT"@) {
        if words.len() < 3 {
            None
        } else {
            Some(CommandView::Put { key: words[1], value: words[2] })
        }
    } else if is_word(words[0], "GET"@) {
        if words.len() < 2 {
            None
        } else {
            Some(CommandView::Get { key: words[1] })
        }
    } else {
        Some(CommandView::Unknown { line })
    }
}

/// The lines that are not blank.
pub open spec fn filled(ls: Seq<Seq<char>>) -> Seq<Seq<char>>
    decreases ls.len(),
{
    if ls.len() == 0 {
        ls
    } else if text::is_blank(ls.last()) {
        filled(ls.drop_last())
    } else {
        filled(ls.drop_last()).push(ls.last())
    }
}

/// Whether a word in capitals is this word.
fn says(s: &str, word: &str) -> (r: bool)
    ensures
        r == is_word(s@, word@),
{
    let a = to_chars(s);
    let b = to_chars(word);
    let ghost upper = s@.map_values(|c: char| ascii_upper(c));
    if a.len() != b.len() {
        assert(upper.len() != word@.len());
        return false;
    }
    let mut i: usize = 0;
    while i < a.len()
        invariant
            i <= a.len(),
            a@ == s@,
            b@ == word@,
            a@.len() == b@.len(),
            upper == s@.map_values(|c: char| ascii_upper(c)),
            forall|j: int| 0 <= j < i ==> upper[j] == word@[j],
        decreases a.len() - i,
    {
        let c = a[i];
        let capital: char = if 'a' <= c && c <= 'z' {
            ((c as u8) - 32u8) as char
        } else {
            c
        };
        assert(capital == upper[i as int]);
        if capital != b[i] {
            return false;
        }
        i += 1;
    }
    assert(upper =~= word@);
    true
}

/// What a line of a script asks for, unless the key or the value is missing.
pub fn parse_command(line: &str) -> (r: Option<Command>)
    ensures
        match r {
            Some(command) => line_command(line@) == Some(command@),
            None => line_command(line@) is None,
        },
        forall|word: Seq<char>, key: Seq<char>, value: Seq<char>|
            client_laws::says_put(word) && !key.contains(' ') && line@ == #[trigger] (word + seq![
                ' ',
            ] + key + seq![' '] + value) ==> r is Some && r->0@ == (CommandView::Put {
                key,
                value,
            }),
        forall|word: Seq<char>, key: Seq<char>|
            client_laws::says_get(word) && !key.contains(' ') && line@ == #[trigger] (word + seq![
                ' ',
            ] + key) ==> r is Some && r->0@ == (CommandView::Get { key }),
{
    proof {
        assert forall|word: Seq<char>, key: Seq<char>, value: Seq<char>|
            client_laws::says_put(word) && !key.contains(' ') && line@ == #[trigger] (word + seq![
                ' ',
            ] + key + seq![' '] + value) implies line_command(line@) == Some(
            CommandView::Put { key, value },
        ) by {
            client_laws::law_put_line(word, key, value);
        }
        assert forall|word: Seq<char>, key: Seq<char>|
            client_laws::says_get(word) && !key.contains(' ') && line@ == #[trigger] (word + seq![
                ' ',
            ] + key) implies line_command(line@) == Some(CommandView::Get { key }) by {
            client_laws::law_get_line(word, key, Seq::empty());
            assert(word + seq![' '] + key + Seq::<char>::empty() =~= word + seq![' '] + key);
        }
    }
    let words = splitn_str(line, 3, ' ');
    let ghost ws = text::splitn(line@, 3, ' ');
    assert(ws.len() == words@.len() && ws.len() >= 1);
    assert(ws[0] == words@[0]@);
    if says(words[0].as_str(), "PUT") {
        if words.len() < 3 {
            None
        } else {
            assert(ws[1] == words@[1]@ && ws[2] == words@[2]@);
            Some(Command::Put { key: words[1].clone(), value: words[2].clone() })
        }
    } else if says(words[0].as_str(), "GET") {
        if words.len() < 2 {
            None
        } else {
            assert(ws[1] == words@[1]@);
            Some(Command::Get { key: words[1].clone() })
        }
    } else {
        Some(Command::Unknown { line: line.to_owned() })
    }
}

/// The lines of a script that ask for something: those that are not blank.
pub fn script_lines(script: &str) -> (r: Vec<String>)
    ensures
        text::views(r@) == filled(text::lines(script@)),
{
    let lines = split_lines(script);
    let ghost ls = text::lines(script@);
    let mut r: Vec<String> = Vec::new();
    let mut i: usize = 0;
    assert(ls.take(0) =~= Seq::empty());
    assert(text::views(r@) =~= Seq::empty());
    while i < lines.len()
        invariant
            i <= lines@.len(),
            ls == text::views(lines@),
            text::views(r@) == filled(ls.take(i as int)),
        decreases lines.len() - i,
    {
        proof {
            assert(ls[i as int] == lines@[i as int]@);
            assert(ls.take(i + 1).drop_last() =~= ls.take(i as int));
            assert(ls.take(i + 1).last() == lines@[i as int]@);
        }
        if !str_is_blank(lines[i].as_str()) {
            let ghost before = text::views(r@);
            let line: String = lines[i].clone();
            r.push(line);
            assert(text::views(r@) =~= before.push(line@));
        }
        i += 1;
    }
    assert(ls.take(i as int) =~= ls);
    r
}

/// The address at which a server does something to a key.
fn url(base_url: &str, verb: &str, key: &str) -> (r: String)
    ensures
        r@ == base_url@ + verb@ + key@,
{
    let mut r = text::concat(base_url, verb);
    r.append(key);
    r
}

/// The address at which to ask for a key.
pub fn get_url(base_url: &str, key: &str) -> (r: String)
    ensures
        r@ == base_url@ + "/get/"@ + key@,
{
    url(base_url, "/get/", key)
}

/// The address at which to set a key.
pub fn put_url(base_url: &str, key: &str) -> (r: String)
    ensures
        r@ == base_url@ + "/put/"@ + key@,
{
    url(base_url, "/put/", key)
}

/// The address at which to delete a key.
pub fn delete_url(base_url: &str, key: &str) -> (r: String)
    ensures
        r@ == base_url@ + "/delete/"@ + key@,
{
    url(base_url, "/delete/", key)
}

/// What is reported of a key that was set.
pub fn put_report(key: &str, value: &str, response: &PutResponse) -> (r: String)
    ensures
        r@ == "PUT "@ + key@ + " = "@ + value@ + " → "@ + response.message@,
{
    let mut r = text::concat("PUT ", key);
    r.append(" = ");
    r.append(value);
    r.append(" → ");
    r.append(response.message.as_str());
    r
}

/// What is reported of a key that was asked for.
pub fn get_report(key: &str, response: &GetResponse) -> (r: String)
    ensures
        r@ == if response.error@.len() == 0 {
            "GET "@ + key@ + " → "@ + response.value@
        } else {
            "GET "@ + key@ + " → error: "@ + response.error@
        },
{
    let mut r = text::concat("GET ", key);
    if response.error.as_str().is_empty() {
        r.append(" → ");
        r.append(response.value.as_str());
    } else {
        r.append(" → error: ");
        r.append(response.error.as_str());
    }
    r
}

/// What is reported of a line that asks for something else.
pub fn unknown_report(line: &str) -> (r: String)
    ensures
        r@ == "Unknown operation: "@ + line@,
{
    text::concat("Unknown operation: ", line)
}

} // verus!
