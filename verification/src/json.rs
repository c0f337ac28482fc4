//! The JSON boundary: parsing component payloads held as JSON text.
//!
//! Parsing is delegated to serde_json. What a given text parses to is a pure
//! function of the text, so the object-field result is given a name,
//! `json_fields_of`, that the field compressor's contracts are stated over.

use vstd::prelude::*;

use crate::protocol::{ComponentData, FieldValue, FieldValueV};

verus! {

#[verifier::external_type_specification]
#[verifier::external_body]
pub struct ExJsonValue(serde_json::Value);

#[verifier::external_type_specification]
#[verifier::external_body]
pub struct ExJsonNumber(serde_json::Number);

/// The fields a JSON text denotes: `Some` exactly when the text parses as a
/// JSON object, with each member converted to a field value (a number
/// narrows to `I64` when exactly representable as a signed integer, else to
/// `U64` when exactly unsigned, else to `F64` bits; strings, booleans,
/// arrays and nested objects convert structurally). The result depends on
/// the text alone.
pub uninterp spec fn json_fields_of(s: Seq<char>) -> Option<Seq<(Seq<char>, FieldValueV)>>;

/// Relies on serde_json::from_str and the accessors of serde_json::Value:
/// parses the text and, when it is a JSON object, hands its members back as
/// field-value pairs in the object's order.
#[verifier::external_body]
pub fn parse_json_object_fields(s: &str) -> (r: Option<Vec<(String, FieldValue)>>)
    ensures
        r.deep_view() == json_fields_of(s@),
{
    match serde_json::from_str::<serde_json::Value>(s) {
        Ok(serde_json::Value::Object(o)) => Some(
            o.iter().map(|(k, v)| (k.clone(), json_value_to_field_value(v))).collect(),
        ),
        _ => None,
    }
}

/// Translates one parsed JSON value into a field value; conversion helper
/// behind `parse_json_object_fields`, trusted as part of it.
#[verifier::external_body]
fn json_value_to_field_value(v: &serde_json::Value) -> FieldValue {
    match v {
        serde_json::Value::Null => FieldValue::Null,
        serde_json::Value::Bool(b) => FieldValue::Bool(*b),
        serde_json::Value::Number(n) => json_number_to_field_value(n),
        serde_json::Value::String(s) => FieldValue::Text(s.clone()),
        serde_json::Value::Array(a) => FieldValue::Array(
            a.iter().map(json_value_to_field_value).collect(),
        ),
        serde_json::Value::Object(o) => FieldValue::Dict(
            o.iter().map(|(k, x)| (k.clone(), json_value_to_field_value(x))).collect(),
        ),
    }
}

/// Relies on serde_json::Number's accessors: a number narrows to `I64` when
/// exactly signed, else `U64` when exactly unsigned, else to its `F64` bits.
#[verifier::external_body]
fn json_number_to_field_value(n: &serde_json::Number) -> FieldValue {
    match (n.as_i64(), n.as_u64()) {
        (Some(i), _) => FieldValue::I64(i),
        (None, Some(u)) => FieldValue::U64(u),
        _ => n.as_f64().map(|f| FieldValue::F64(f.to_bits())).unwrap_or(FieldValue::Null),
    }
}

/// Relies on serde_json::from_str: `Some` iff the text is valid JSON.
#[verifier::external_body]
pub fn parse_json_text(s: &str) -> (r: Option<serde_json::Value>) {
    serde_json::from_str(s).ok()
}

/// Relies on the Display rendering of serde_json::Value: the value as
/// compact JSON text.
#[verifier::external_body]
pub fn json_value_to_text(v: &serde_json::Value) -> (r: String) {
    v.to_string()
}


impl ComponentData {
    /// Hold a parsed JSON value as a `Json` component, rendered back to
    /// compact text.
    pub fn from_json_value(value: serde_json::Value) -> (r: ComponentData)
        ensures
            r is Json,
    {
        ComponentData::Json(json_value_to_text(&value))
    }

    /// Parse a `Json` component's text back into a JSON value; `None` for
    /// the other variants or unparsable text.
    pub fn to_json_value(&self) -> (r: Option<serde_json::Value>)
        ensures
            !(self is Json) ==> r is None,
    {
        match self {
            ComponentData::Json(s) => parse_json_text(s.as_str()),
            _ => None,
        }
    }

    /// The raw JSON text, when this is a `Json` component.
    pub fn as_json_str(&self) -> (r: Option<&str>)
        ensures
            match r {
                Some(s) => self matches ComponentData::Json(t) && s@ == t@,
                None => !(self is Json),
            },
    {
        match self {
            ComponentData::Json(s) => Some(s.as_str()),
            _ => None,
        }
    }
}

} // verus!

