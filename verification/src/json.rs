//! JSON reading, through `serde_json`.

use vstd::prelude::*;

verus! {

/// What `serde_json::from_str::<HashMap<String, String>>` makes of `text`:
/// `Some` of the object's entries when `text` is one JSON object whose values
/// are all strings (a repeated key keeps its last value), `None` otherwise.
pub uninterp spec fn json_string_object(text: Seq<char>) -> Option<Map<Seq<char>, Seq<char>>>;

/// What `serde_json::from_str::<serde_json::Value>(text)` followed by
/// `.get(key)` and `.as_str()` gives: the string stored under `key` when
/// `text` is a JSON object holding a string there.
pub uninterp spec fn json_string_field(text: Seq<char>, key: Seq<char>) -> Option<Seq<char>>;

/// Whether `entries` lists each entry of `m` exactly once, in some order.
pub open spec fn enumerates(entries: Seq<(Seq<char>, Seq<char>)>, m: Map<Seq<char>, Seq<char>>) -> bool {
    &&& forall|i: int|
        0 <= i < entries.len() ==> m.contains_key(#[trigger] entries[i].0) && m[entries[i].0]
            == entries[i].1
    &&& forall|i: int, j: int|
        0 <= i < j < entries.len() ==> #[trigger] entries[i].0 != #[trigger] entries[j].0
    &&& forall|k: Seq<char>|
        #[trigger] m.contains_key(k) ==> exists|i: int| 0 <= i < entries.len() && entries[i].0 == k
}

/// The views of a sequence of string pairs.
pub open spec fn pair_views(v: Seq<(String, String)>) -> Seq<(Seq<char>, Seq<char>)> {
    v.map_values(|p: (String, String)| (p.0@, p.1@))
}

/// `serde_json::from_str::<HashMap<String, String>>(text)`, its entries then
/// taken out of the map. The entries are those of `json_string_object(text)`;
/// the order in which the hash map hands them out is not stated, since it
/// changes from one process to the next.
#[verifier::external_body]
pub fn parse_string_object(text: &str) -> (r: Option<Vec<(String, String)>>)
    ensures
        r is Some <==> json_string_object(text@) is Some,
        r matches Some(v) ==> enumerates(pair_views(v@), json_string_object(text@)->0),
{
    serde_json::from_str::<std::collections::HashMap<String, String>>(text).ok().map(
        |m| m.into_iter().collect(),
    )
}

/// `serde_json::from_str::<serde_json::Value>(text)`, then `.get(key)` and
/// `.as_str()` on the parsed value: the string field `key` of the JSON object
/// in `text`, named `json_string_field(text, key)`.
#[verifier::external_body]
pub fn read_string_field(text: &str, key: &str) -> (r: Option<String>)
    ensures
        r is Some <==> json_string_field(text@, key@) is Some,
        r matches Some(v) ==> v@ == json_string_field(text@, key@)->0,
{
    serde_json::from_str::<serde_json::Value>(text).ok().and_then(
        |v| v.get(key).and_then(|f| f.as_str()).map(|s| s.to_string()),
    )
}

} // verus!
