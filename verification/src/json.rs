//! Reading a package manifest through `serde_json`.

use vstd::prelude::*;

verus! {

/// The string that `serde_json` finds under `key` at the top of the JSON
/// document `text`: `None` when the text is not JSON, is not an object,
/// has no such member, or has one that is not a string.
pub uninterp spec fn json_str_member(text: Seq<char>, key: Seq<char>) -> Option<Seq<char>>;

/// `serde_json::from_str` into a `serde_json::Value`, then
/// `serde_json::Value::get` with `key` and `serde_json::Value::as_str`.
///
/// Claims that the result is [`json_str_member`] of the text and the key,
/// which depends on those two alone. What that member is for a given
/// text is not described: it is `serde_json`'s reading of JSON.
#[verifier::external_body]
pub(crate) fn str_member(text: &str, key: &str) -> (r: Option<String>)
    ensures
        r.deep_view() == json_str_member(text@, key@),
{
    match serde_json::from_str::<serde_json::Value>(text) {
        Ok(value) => value.get(key).and_then(serde_json::Value::as_str).map(str::to_string),
        Err(_) => None,
    }
}

} // verus!
