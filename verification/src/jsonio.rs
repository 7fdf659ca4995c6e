//! Trusted surface over the JSON parser that reads the export.
//!
//! One wrapper makes every call into the parser and hands back plain values:
//! the raw fields of each sample object. What it returns is a function of
//! the text alone, so [`crate::ingest::export_samples`] names it, and
//! ingestion's own contract is stated over that name.

use vstd::prelude::*;
use serde_json::Value;
use crate::ingest::{export_samples, RawSample};

verus! {

/// Relies on `serde_json::from_str::<Value>` and on the `Value` accessors
/// `get`, `as_array`, `as_str` and `as_i64`: parses the text and reads, for
/// each element of the top-level `locations` array, the five raw sample
/// fields as plain values. `None` means the text is not JSON; `Some(None)`
/// means it is JSON without a `locations` array; an absent or wrongly typed
/// field is an absent plain value, judged by the verified caller. The result
/// depends on the text alone and is named `export_samples`.
#[verifier::external_body]
pub(crate) fn extract_samples(s: &str) -> (r: Option<Option<Vec<RawSample>>>)
    ensures
        match export_samples(s@) {
            None => r is None,
            Some(None) => r matches Some(None),
            Some(Some(m)) => r matches Some(Some(v)) && v@.len() == m.len() && (forall|i: int|
                0 <= i < m.len() ==> v@[i]@ == m[i]),
        },
{
    let root: Value = match serde_json::from_str(s) { Ok(v) => v, Err(_) => return None };
    let items = match root.get("locations").and_then(Value::as_array) {
        Some(a) => a,
        None => return Some(None),
    };
    let num = |v: &Value, k| v.get(k).and_then(Value::as_i64);
    let out = items.iter().map(|v| RawSample {
        timestamp_ms: v.get("timestampMs").and_then(Value::as_str).map(str::to_string),
        latitude_e7: num(v, "latitudeE7"),
        longitude_e7: num(v, "longitudeE7"),
        accuracy: num(v, "accuracy"),
        altitude: v.get("altitude").map(Value::as_i64),
    }).collect();
    Some(Some(out))
}

} // verus!
