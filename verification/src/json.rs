//! The JSON objects that the store keeps on a line of their own.

use vstd::prelude::*;

verus! {

/// `serde_json::Value`: a JSON value. Nothing is known of what is inside.
#[verifier::external_type_specification]
#[verifier::external_body]
pub struct ExValue(serde_json::Value);

/// `serde_json::Error`: why a text is no JSON. Nothing is known of what is inside.
#[verifier::external_type_specification]
#[verifier::external_body]
pub struct ExError(serde_json::Error);

/// Whether `serde_json::from_str` reads a JSON value from the text.
pub uninterp spec fn json_valid(text: Seq<char>) -> bool;

/// What `serde_json::Value::as_str` gives for the member of this name of the value that the text
/// stands for: the string, or nothing where the value is no object, has no such member, or the
/// member is no string.
pub uninterp spec fn json_text(text: Seq<char>, name: Seq<char>) -> Option<Seq<char>>;

/// What `serde_json::Value::as_bool` gives for the member of this name of the value that the text
/// stands for: the truth value, or nothing where the value is no object, has no such member, or
/// the member is no truth value.
pub uninterp spec fn json_flag(text: Seq<char>, name: Seq<char>) -> Option<bool>;

/// The text that `serde_json::Value::to_string` gives for the object with these members.
pub uninterp spec fn json_object(members: Seq<(Seq<char>, MemberView)>) -> Seq<char>;

/// The value of a member of an object.
pub enum Member {
    Text(String),
    Flag(bool),
}

/// What a `Member` holds.
pub enum MemberView {
    Text(Seq<char>),
    Flag(bool),
}

impl View for Member {
    type V = MemberView;

    open spec fn view(&self) -> MemberView {
        match self {
            Member::Text(text) => MemberView::Text(text@),
            Member::Flag(flag) => MemberView::Flag(*flag),
        }
    }
}

/// What named members hold.
pub open spec fn member_views(members: Seq<(String, Member)>) -> Seq<(Seq<char>, MemberView)> {
    members.map_values(|m: (String, Member)| (m.0@, m.1@))
}

/// A text that is JSON, with the value that it stands for. Only `parse` makes one, so that the
/// value is always that of the text.
pub struct Document {
    value: serde_json::Value,
    text: String,
}

impl Document {
    /// The text that the document was read from.
    pub closed spec fn source(&self) -> Seq<char> {
        self.text@
    }

    /// Calls `serde_json::from_str`. Whether it succeeds is what `json_valid` names.
    #[verifier::external_body]
    pub(crate) fn parse(text: &str) -> (r: Result<Document, serde_json::Error>)
        ensures
            r is Ok <==> json_valid(text@),
            r matches Ok(document) ==> document.source() == text@,
    {
        let value: serde_json::Value = serde_json::from_str(text)?;
        Ok(Document { value, text: text.to_owned() })
    }

    /// Calls `serde_json::Value::as_str` on the member of this name, which `json_text` names.
    #[verifier::external_body]
    pub(crate) fn text(&self, name: &str) -> (r: Option<String>)
        ensures
            r is Some <==> json_text(self.source(), name@) is Some,
            r matches Some(text) ==> json_text(self.source(), name@) == Some(text@),
    {
        match self.value[name].as_str() {
            Some(text) => Some(text.to_owned()),
            None => None,
        }
    }

    /// Calls `serde_json::Value::as_bool` on the member of this name, which `json_flag` names.
    #[verifier::external_body]
    pub(crate) fn flag(&self, name: &str) -> (r: Option<bool>)
        ensures
            r == json_flag(self.source(), name@),
    {
        self.value[name].as_bool()
    }
}

/// Calls `serde_json::Value::to_string` on the object with these members, no two of one name and
/// none of a name that starts with `$`: `serde_json` keeps such names for itself and may not read
/// an object that starts with one of them as an object. The text is what `json_object` names. It is
/// JSON, reading it gives every member back, and it holds no line feed and no carriage return, for
/// control characters are written as escapes.
#[verifier::external_body]
pub(crate) fn render(members: &Vec<(String, Member)>) -> (r: String)
    requires
        forall|i: int, j: int|
            0 <= i < j < members@.len() ==> member_views(members@)[i].0 != member_views(
                members@,
            )[j].0,
        forall|i: int|
            0 <= i < members@.len() ==> {
                let name = (#[trigger] member_views(members@)[i]).0;
                name.len() > 0 ==> name[0] != '$'
            },
    ensures
        r@ == json_object(member_views(members@)),
        json_valid(r@),
        forall|i: int|
            0 <= i < members@.len() ==> match #[trigger] member_views(members@)[i] {
                (name, MemberView::Text(text)) => json_text(r@, name) == Some(text),
                (name, MemberView::Flag(flag)) => json_flag(r@, name) == Some(flag),
            },
        !r@.contains('\n'),
        !r@.contains('\r'),
{
    let mut object = serde_json::Map::new();
    for (name, member) in members.iter() {
        let value = match member {
            Member::Text(text) => serde_json::Value::String(text.clone()),
            Member::Flag(flag) => serde_json::Value::Bool(*flag),
        };
        object.insert(name.clone(), value);
    }
    serde_json::Value::Object(object).to_string()
}

} // verus!
