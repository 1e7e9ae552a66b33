//! The JSON library behind two small calls: reading the string that a line
//! holds at a key, and writing a list of strings as one JSON document.
//!
//! Nothing here is proved. The contracts give each outcome a name, and the
//! rest of the library is proved against those names.

use simd_json::prelude::ValueObjectAccessAsScalar;
use vstd::prelude::*;

verus! {

/// What the JSON parser finds in `line` under `key`.
///
/// `None`: the line is not valid JSON. `Some(None)`: the line is valid JSON
/// but is no object, has no member `key`, or holds something other than a
/// string there. `Some(Some(t))`: the line is an object whose member `key` is
/// the string `t`, escapes resolved. Where an object names a key more than
/// once, the member is the one that the parser's own lookup answers with.
pub uninterp spec fn json_text_at(line: Seq<u8>, key: Seq<char>) -> Option<Option<Seq<char>>>;

/// The JSON array that the serializer writes for `values`, in their order.
pub uninterp spec fn json_array_text(values: Seq<Seq<char>>) -> Seq<char>;

/// The view of a lookup's outcome.
pub open spec fn field_view(field: Option<Option<String>>) -> Option<Option<Seq<char>>> {
    match field {
        None => None,
        Some(None) => Some(None),
        Some(Some(t)) => Some(Some(t@)),
    }
}

/// Parses a copy of `line` with `simd_json::to_borrowed_value` and looks
/// `key` up with `get_str`, which answers with a string only where the value
/// is an object that holds a string under that key. A parse error becomes
/// `None`. The contract claims no more than that the outcome is the one
/// named `json_text_at` for these bytes and this key.
#[verifier::external_body]
pub(crate) fn text_at(line: &[u8], key: &str) -> (r: Option<Option<String>>)
    ensures
        field_view(r) == json_text_at(line@, key@),
{
    let mut copy = line.to_vec();
    let found = match simd_json::to_borrowed_value(&mut copy) {
        Ok(row) => match row.get_str(key) {
            Some(text) => Some(Some(text.to_owned())),
            None => Some(None),
        },
        Err(_) => None,
    };
    found
}

/// Writes `values` with `simd_json::to_string`, which serializes a list of
/// strings as a JSON array. The serializer fails only where its sink refuses
/// bytes or where a map has a key that is no string; here the sink is a
/// vector and there is no map, so the contract claims that a document comes
/// back, and that it is the one named `json_array_text` for these strings.
#[verifier::external_body]
pub(crate) fn array_text(values: &Vec<String>) -> (r: Option<String>)
    ensures
        r is Some,
        r matches Some(document) ==> document@ == json_array_text(values.deep_view()),
{
    match simd_json::to_string(values) {
        Ok(document) => Some(document),
        Err(_) => None,
    }
}

} // verus!
