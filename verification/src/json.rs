//! The textual interchange encoding for runtime values: a native boolean
//! maps to a boolean, a native integer to an integer, and a native string is
//! first tried as an address literal, else kept as its raw decoded bytes.

use vstd::prelude::*;
use crate::addr::{parse_ip, parse_ip_spec};
use crate::value::{LhsValue, ValueModel, value_view, value_wf};

verus! {

/// One scalar read from an interchange document.
#[derive(Debug)]
pub enum JsonScalar {
    /// A null.
    Null,
    /// A boolean.
    Bool(bool),
    /// A number with an integral value.
    Int(i64),
    /// A number without an integral value.
    NonInt,
    /// A string, escapes already decoded, as its UTF-8 bytes.
    Str(Vec<u8>),
    /// An array or an object.
    Compound,
}

/// What parsing an interchange document yields: a scalar classification, or
/// nothing for malformed text.
pub uninterp spec fn json_scalar_of(s: Seq<char>) -> Option<JsonScalar>;

/// Relies on `serde_json::from_str::<serde_json::Value>` to parse the text
/// (decoding escape sequences in strings to their underlying bytes) and on
/// `serde_json::Number::as_i64` to read an integral number. The result is a
/// function of the text alone.
#[verifier::external_body]
fn parse_json_scalar(text: &str) -> (r: Option<JsonScalar>)
    ensures
        r == json_scalar_of(text@),
{
    match serde_json::from_str::<serde_json::Value>(text) {
        Err(_) => None,
        Ok(serde_json::Value::Null) => Some(JsonScalar::Null),
        Ok(serde_json::Value::Bool(b)) => Some(JsonScalar::Bool(b)),
        Ok(serde_json::Value::Number(n)) => Some(
            match n.as_i64() {
                Some(i) => JsonScalar::Int(i),
                None => JsonScalar::NonInt,
            },
        ),
        Ok(serde_json::Value::String(s)) => Some(JsonScalar::Str(s.into_bytes())),
        Ok(serde_json::Value::Array(_)) => Some(JsonScalar::Compound),
        Ok(serde_json::Value::Object(_)) => Some(JsonScalar::Compound),
    }
}

/// Why interchange text yields no runtime value.
#[derive(Debug)]
pub enum FromJsonError {
    /// The text is not a well-formed document.
    Syntax,
    /// The document's value has no runtime form: a null, a non-integral
    /// number, an integer outside the 32-bit range, an array or an object.
    Unrepresentable,
}

/// The runtime value a scalar stands for: a boolean maps to a boolean, an
/// integral number in 32-bit range to an integer, and a string first to an
/// address when it reads as one, else to its raw bytes.
pub open spec fn scalar_value_spec(s: JsonScalar) -> Result<ValueModel, FromJsonError> {
    match s {
        JsonScalar::Bool(b) => Ok(ValueModel::Bool(b)),
        JsonScalar::Int(i) => if i32::MIN <= i <= i32::MAX {
            Ok(ValueModel::Int(i as i32))
        } else {
            Err(FromJsonError::Unrepresentable)
        },
        JsonScalar::Str(b) => match parse_ip_spec(b@) {
            Some(a) => Ok(ValueModel::Ip(a)),
            None => Ok(ValueModel::Bytes(b@)),
        },
        _ => Err(FromJsonError::Unrepresentable),
    }
}

/// Builds the runtime value a parsed scalar stands for.
pub fn lhs_value_from_scalar(s: JsonScalar) -> (r: Result<LhsValue, FromJsonError>)
    ensures
        match scalar_value_spec(s) {
            Ok(m) => r is Ok && value_view(r.unwrap()) == m && value_wf(r.unwrap()),
            Err(e) => r == Err::<LhsValue, FromJsonError>(e),
        },
{
    match s {
        JsonScalar::Bool(b) => Ok(LhsValue::Bool(b)),
        JsonScalar::Int(i) => if i >= i32::MIN as i64 && i <= i32::MAX as i64 {
            Ok(LhsValue::Int(i as i32))
        } else {
            Err(FromJsonError::Unrepresentable)
        },
        JsonScalar::Str(b) => match parse_ip(b.as_slice()) {
            Some(a) => Ok(LhsValue::Ip(a)),
            None => Ok(LhsValue::Bytes(b)),
        },
        JsonScalar::Null => Err(FromJsonError::Unrepresentable),
        JsonScalar::NonInt => Err(FromJsonError::Unrepresentable),
        JsonScalar::Compound => Err(FromJsonError::Unrepresentable),
    }
}

/// Builds a runtime value from one interchange document: parses the text,
/// then maps the scalar to its runtime form.
pub fn lhs_value_from_json(text: &str) -> (r: Result<LhsValue, FromJsonError>)
    ensures
        json_scalar_of(text@) is None ==> r == Err::<LhsValue, FromJsonError>(
            FromJsonError::Syntax,
        ),
        json_scalar_of(text@) matches Some(s) ==> match scalar_value_spec(s) {
            Ok(m) => r is Ok && value_view(r.unwrap()) == m && value_wf(r.unwrap()),
            Err(e) => r == Err::<LhsValue, FromJsonError>(e),
        },
{
    match parse_json_scalar(text) {
        None => Err(FromJsonError::Syntax),
        Some(s) => lhs_value_from_scalar(s),
    }
}

} // verus!
