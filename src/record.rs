//! What the log engine reads inside a record: its aggregate identifier.
use vstd::prelude::*;

verus! {

#[verifier::external_type_specification]
#[verifier::external_body]
pub struct ExJsonError(serde_json::Error);

/// What parsing `record` as a JSON object and reading its field `key` as an
/// unsigned 64-bit integer gives: `None` where `record` is not a JSON object,
/// `Some(None)` where the field is absent, null or not such an integer.
pub uninterp spec fn json_u64_field(record: Seq<u8>, key: Seq<char>) -> Option<Option<u64>>;

/// Relies on serde_json::from_slice to parse `record` as a JSON object, and on
/// serde_json's Map::get and Value::as_u64 to read its field `key`: the outcome
/// depends on the bytes and the key alone.
#[verifier::external_body]
fn read_u64_field(record: &[u8], key: &str) -> (r: Result<Option<u64>, serde_json::Error>)
    ensures
        match r {
            Ok(v) => json_u64_field(record@, key@) == Some(v),
            Err(_) => json_u64_field(record@, key@) is None,
        },
{
    let object: serde_json::Map<String, serde_json::Value> = serde_json::from_slice(record)?;
    Ok(object.get(key).and_then(serde_json::Value::as_u64))
}

/// The name of a record's aggregate identifier field.
pub open spec fn aggregate_key() -> Seq<char> {
    "aggregate_id"@
}

/// A record's aggregate identifier: `None` where the record is not a JSON
/// object, `Some(None)` where it names no aggregate.
pub open spec fn record_aggregate(record: Seq<u8>) -> Option<Option<u64>> {
    json_u64_field(record, aggregate_key())
}

/// Reads the aggregate identifier of `record`; `None` where the record is not
/// a JSON object, which makes it a corrupt entry.
pub fn aggregate_of(record: &[u8]) -> (r: Option<Option<u64>>)
    ensures
        r == record_aggregate(record@),
{
    match read_u64_field(record, "aggregate_id") {
        Ok(v) => Some(v),
        Err(_) => None,
    }
}

} // verus!
