//! The trusted bridge to `serde_json` for JSON-per-line sources: a
//! parsed value is opaque and modelled by its canonical rendering
//! (`json_rep`); a line parses to a top-level object or not, as a
//! function of the line text alone.

use vstd::prelude::*;

use crate::model::{StateValue, ValueRep};

verus! {

#[verifier::external_type_specification]
#[verifier::external_body]
pub struct ExValue(serde_json::Value);

/// The canonical (compact) JSON rendering of a parsed value, which
/// determines it completely: `serde_json` keeps object keys sorted, so
/// the rendering is a function of the value.
pub uninterp spec fn json_rep(v: serde_json::Value) -> Seq<char>;

/// What parsing a line as JSON yields: `None` when the text is not a
/// JSON object, otherwise the object's entries in key order, each as
/// the key and the rendering of its value.  Keys are distinct.
pub uninterp spec fn json_object_of(s: Seq<char>) -> Option<Seq<(Seq<char>, Seq<char>)>>;

/// The string content of a rendered JSON value, when it is a string.
pub uninterp spec fn json_str_of(rep: Seq<char>) -> Option<Seq<char>>;

/// The state value a rendered JSON value converts to: strings stay
/// strings, numbers become Integer when they are an `i64` and Float
/// otherwise, booleans become Bool, null converts to nothing, and any
/// other value is stringified.
pub uninterp spec fn json_state_of(rep: Seq<char>) -> Option<ValueRep>;

/// Relies on `serde_json::from_str::<serde_json::Value>` and
/// `serde_json::Map` iteration (a sorted map by default): parses the
/// text and hands out the top-level object's entries in key order, or
/// `None` when the text is not a JSON object.
#[verifier::external_body]
pub fn json_parse_object(s: &str) -> (r: Option<Vec<(String, serde_json::Value)>>)
    ensures
        match r {
            None => json_object_of(s@) is None,
            Some(entries) => {
                &&& json_object_of(s@) matches Some(reps)
                &&& reps.len() == entries@.len()
                &&& forall|i: int|
                    0 <= i < entries@.len() ==> #[trigger] reps[i] == (
                    entries@[i].0@,
                    json_rep(entries@[i].1),
                )
                &&& forall|i: int, j: int|
                    0 <= i < j < entries@.len() ==> entries@[i].0@ != entries@[j].0@
            },
        },
{
    match serde_json::from_str::<serde_json::Value>(s) {
        Ok(serde_json::Value::Object(map)) => Some(map.into_iter().collect()),
        _ => None,
    }
}

/// Relies on `serde_json::Value::as_str`: the content of a JSON string
/// value.
#[verifier::external_body]
pub fn json_value_as_str(v: &serde_json::Value) -> (r: Option<String>)
    ensures
        match r {
            None => json_str_of(json_rep(*v)) is None,
            Some(s) => json_str_of(json_rep(*v)) == Some(s@),
        },
{
    v.as_str().map(|s| s.to_string())
}

/// Relies on `serde_json::Value`'s variant accessors and
/// `serde_json::Number::as_i64`: converts one JSON value to a state
/// value (`json_state_of`), with `None` for JSON null.
#[verifier::external_body]
pub fn json_value_to_state(v: &serde_json::Value) -> (r: Option<StateValue>)
    ensures
        match r {
            None => json_state_of(json_rep(*v)) is None,
            Some(sv) => json_state_of(json_rep(*v)) == Some(sv@),
        },
{
    match v {
        serde_json::Value::String(s) => Some(StateValue::String(s.clone())),
        serde_json::Value::Number(n) => match n.as_i64() {
            Some(i) => Some(StateValue::Integer(i)),
            None => Some(StateValue::Float(n.clone())),
        },
        serde_json::Value::Bool(b) => Some(StateValue::Bool(*b)),
        serde_json::Value::Null => None,
        other => Some(StateValue::String(other.to_string())),
    }
}

} // verus!
