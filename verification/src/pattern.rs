//! The patterns by which the store tells the lines of its manifest apart.

use crate::text;
use vstd::prelude::*;

verus! {

/// The pattern of a line that starts a level.
pub const LEVEL_PATTERN: &'static str = r"^\[L\d+\]$";

/// The pattern of a line that is the name of a table; the group `num` is its number.
pub const TABLE_PATTERN: &'static str = r"^(?P<name>[a-zA-Z0-9]+)-(?P<num>\d+)\.json$";

/// `regex::Regex`: a compiled pattern. Nothing is known of what is inside.
#[verifier::external_type_specification]
#[verifier::external_body]
pub struct ExRegex(regex::Regex);

/// Whether `\d` matches a character that is not ASCII: the decimal digits of other scripts.
pub uninterp spec fn is_foreign_digit(c: char) -> bool;

/// Whether `\d` matches the character.
pub open spec fn is_any_digit(c: char) -> bool {
    if c <= '\u{7f}' {
        text::is_digit(c)
    } else {
        is_foreign_digit(c)
    }
}

/// Whether a character is an ASCII letter or digit.
pub open spec fn is_alphanumeric(c: char) -> bool {
    'a' <= c <= 'z' || 'A' <= c <= 'Z' || '0' <= c <= '9'
}

/// Whether a line starts a level: `[L`, digits, one at least, and `]`.
pub open spec fn is_level_header(s: Seq<char>) -> bool {
    &&& s.len() >= 4
    &&& s[0] == '['
    &&& s[1] == 'L'
    &&& s.last() == ']'
    &&& forall|i: int| 2 <= i < s.len() - 1 ==> is_any_digit(#[trigger] s[i])
}

/// Whether a line is the name of a table: letters and digits, `-`, the digits of its number, one
/// at least of either, and `.json`.
pub open spec fn is_table_name(s: Seq<char>) -> bool {
    let n = text::position(s, '-');
    &&& 0 < n
    &&& n + 6 < s.len()
    &&& forall|i: int| 0 <= i < n ==> is_alphanumeric(#[trigger] s[i])
    &&& forall|i: int| n < i < s.len() - 5 ==> is_any_digit(#[trigger] s[i])
    &&& s.skip(s.len() - 5) == seq!['.', 'j', 's', 'o', 'n']
}

/// The digits of the number in the name of a table.
pub open spec fn table_number(s: Seq<char>) -> Seq<char> {
    s.subrange(text::position(s, '-') + 1, s.len() - 5)
}

/// A compiled pattern, with the pattern that it was compiled from. Only `compile` makes one, so
/// that the two always agree.
pub struct Pattern {
    regex: regex::Regex,
    source: String,
}

impl Pattern {
    /// The pattern that was compiled.
    pub closed spec fn source(&self) -> Seq<char> {
        self.source@
    }

    /// Calls `regex::Regex::new`, which accepts both patterns.
    #[verifier::external_body]
    pub(crate) fn compile(pattern: &str) -> (r: Pattern)
        requires
            pattern@ == LEVEL_PATTERN@ || pattern@ == TABLE_PATTERN@,
        ensures
            r.source() == pattern@,
    {
        Pattern { regex: regex::Regex::new(pattern).unwrap(), source: pattern.to_owned() }
    }

    /// Calls `regex::Regex::is_match`. Which lines the pattern of a level matches can be read off
    /// it; of `\d` only the ASCII digits are spelt out.
    #[verifier::external_body]
    pub(crate) fn matches(&self, line: &str) -> (r: bool)
        requires
            self.source() == LEVEL_PATTERN@,
        ensures
            r == is_level_header(line@),
            r ==> forall|i: int|
                2 <= i < line@.len() - 1 ==> text::is_digit(#[trigger] line@[i]) || is_foreign_digit(
                    line@[i],
                ),
    {
        self.regex.is_match(line)
    }

    /// Calls `regex::Regex::captures` and takes the group. Which lines the pattern of a table
    /// matches, and what its group `num` holds, can be read off it; of `\d` only the ASCII digits
    /// are spelt out.
    #[verifier::external_body]
    pub(crate) fn captured(&self, line: &str, group: &str) -> (r: Option<String>)
        requires
            self.source() == TABLE_PATTERN@,
            group@ == "num"@,
        ensures
            r is Some <==> is_table_name(line@),
            r matches Some(digits) ==> digits@ == table_number(line@),
    {
        match self.regex.captures(line) {
            Some(captures) => Some(captures[group].to_owned()),
            None => None,
        }
    }
}

} // verus!
