//! What the library takes from `serde_json`, and what it believes of it.

use vstd::prelude::*;

verus! {

/// A JSON value of `serde_json`. Nothing of it is open to proof but what
/// `text_members` names.
#[verifier::external_type_specification]
#[verifier::external_body]
pub struct ExJsonValue(serde_json::Value);

/// The error of `serde_json`. It is carried, never read.
#[verifier::external_type_specification]
#[verifier::external_body]
pub struct ExJsonError(serde_json::Error);

/// The members of the JSON object `value` that are texts, each under its
/// name. It has none where `value` is no object.
pub uninterp spec fn text_members(value: serde_json::Value) -> Map<Seq<char>, Seq<char>>;

/// The text members of each element of the JSON array that `text` writes, in
/// the order of the array. Nothing where `text` does not write a JSON array.
pub uninterp spec fn decoded_array(text: Seq<char>) -> Option<Seq<Map<Seq<char>, Seq<char>>>>;

/// The text members of each of `values`.
pub open spec fn members_of(values: Seq<serde_json::Value>) -> Seq<Map<Seq<char>, Seq<char>>> {
    values.map_values(|value: serde_json::Value| text_members(value))
}

/// Calls `serde_json::from_str` to decode `text` as an array of JSON values.
/// Nothing is proved of it. The contract claims that what comes back is
/// settled by `text` alone: an error exactly where `decoded_array` has
/// nothing, and else values whose text members are those it names.
#[verifier::external_body]
pub(crate) fn parse_array(text: &str) -> (r: Result<Vec<serde_json::Value>, serde_json::Error>)
    ensures
        r matches Ok(values) ==> decoded_array(text@) == Some(members_of(values@)),
        r is Err ==> decoded_array(text@) is None,
{
    serde_json::from_str(text)
}

/// Looks `name` up in `value` with the index of `serde_json::Value` and
/// reads what is found with `Value::as_str`. Nothing is proved of it. The
/// contract claims that the text comes back where `value` is an object with
/// a member of that name that is a text, and nothing else.
#[verifier::external_body]
pub(crate) fn member_text(value: &serde_json::Value, name: &str) -> (r: Option<String>)
    ensures
        r matches Some(text) ==> text_members(*value).contains_key(name@) && text_members(
            *value,
        )[name@] == text@,
        r is None ==> !text_members(*value).contains_key(name@),
{
    value[name].as_str().map(String::from)
}

/// The text under `name` among `members`, if there is one.
pub open spec fn member(members: Map<Seq<char>, Seq<char>>, name: Seq<char>) -> Option<
    Seq<char>,
> {
    if members.contains_key(name) {
        Some(members[name])
    } else {
        None
    }
}

} // verus!
