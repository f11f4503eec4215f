use vstd::prelude::*;
use crate::value::{Json, JsonV, jv};

verus! {

#[verifier::external_type_specification]
#[verifier::external_body]
pub struct ExSerdeValue(serde_json::Value);

/// What parsing `s` as UTF-8 JSON text yields: the value tree, with object
/// keys in the parser's order and every number carried as its decimal
/// rendering; or nothing when the bytes are not well-formed JSON.
pub uninterp spec fn json_of(s: Seq<u8>) -> Option<JsonV>;

/// What rendering a value tree as compact JSON text yields.
pub uninterp spec fn json_bytes_of(v: JsonV) -> Seq<u8>;

/// Bit pattern of the 64-bit float that the numeric literal `s` denotes.
pub uninterp spec fn f64_bits_of(s: Seq<u8>) -> u64;

/// Plumbing for `parse_json`: rebuilds a parsed tree as the library's own
/// value type, one arm per tag, numbers as their decimal rendering.
#[verifier::external_body]
fn from_serde(v: &serde_json::Value) -> Json {
    match v {
        serde_json::Value::Null => Json::Null,
        serde_json::Value::Bool(b) => Json::Bool(*b),
        serde_json::Value::Number(n) => Json::Num(n.to_string().into_bytes()),
        serde_json::Value::String(s) => Json::Str(s.as_bytes().to_vec()),
        serde_json::Value::Array(a) => Json::Arr(a.iter().map(from_serde).collect()),
        serde_json::Value::Object(o) => Json::Obj(
            o.iter().map(|(k, x)| (k.as_bytes().to_vec(), from_serde(x))).collect(),
        ),
    }
}

/// Relies on serde_json::from_slice: decodes UTF-8 JSON text into a value
/// tree, failing exactly on input that is not well-formed JSON; the error
/// carries the parser's own message.
#[verifier::external_body]
pub(crate) fn parse_json(input: &[u8]) -> (r: Result<Json, String>)
    ensures
        r is Ok <==> json_of(input@) is Some,
        r matches Ok(v) ==> json_of(input@) == Some(jv(v)),
{
    serde_json::from_slice::<serde_json::Value>(input).map(|v| from_serde(&v)).map_err(|e|
        e.to_string())
}

/// Plumbing for `json_to_vec`: rebuilds the library's value as a parser
/// tree, one arm per tag, numeric literals reparsed.
#[verifier::external_body]
fn to_serde(v: &Json) -> serde_json::Value {
    match v {
        Json::Null => serde_json::Value::Null,
        Json::Bool(b) => serde_json::Value::Bool(*b),
        Json::Num(n) => serde_json::from_slice::<serde_json::Value>(n).unwrap_or(
            serde_json::Value::Null,
        ),
        Json::Str(s) => serde_json::Value::String(String::from_utf8_lossy(s).into_owned()),
        Json::Arr(a) => serde_json::Value::Array(a.iter().map(to_serde).collect()),
        Json::Obj(o) => serde_json::Value::Object(
            o.iter().map(|(k, x)| (String::from_utf8_lossy(k).into_owned(), to_serde(x))).collect(),
        ),
    }
}

/// Relies on serde_json::to_vec: renders a value tree as compact JSON text,
/// a pure function of the value.
#[verifier::external_body]
pub(crate) fn json_to_vec(v: &Json) -> (r: Vec<u8>)
    ensures
        r@ == json_bytes_of(jv(*v)),
{
    serde_json::to_vec(&to_serde(v)).unwrap_or(Vec::new())
}

/// Relies on serde_json's number parsing and Number::as_f64: the 64-bit
/// float a numeric literal denotes depends on the literal alone.
#[verifier::external_body]
pub(crate) fn num_bits(lit: &[u8]) -> (r: u64)
    ensures
        r == f64_bits_of(lit@),
{
    serde_json::from_slice::<serde_json::Value>(lit).ok().and_then(|v| v.as_f64()).map(|x|
        x.to_bits()).unwrap_or(0)
}

} // verus!
