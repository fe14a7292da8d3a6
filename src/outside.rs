use vstd::prelude::*;

verus! {

/// serde_json::Value, the open structured value of property and metadata maps.
/// The stores only carry it; nothing is assumed of what it holds.
#[verifier::external_type_specification]
#[verifier::external_body]
pub struct ExJsonValue(serde_json::Value);

/// Relies on uuid::Uuid::new_v4 and Uuid::as_u128: a random version-4 identifier,
/// handed back as its 128-bit value. Nothing is promised of which value comes back.
/// It takes no input; it panics only if the system's random source fails.
#[verifier::external_body]
pub(crate) fn new_record_id() -> (r: u128) {
    uuid::Uuid::new_v4().as_u128()
}

/// Relies on chrono::Utc::now and DateTime::timestamp_millis: the current time as
/// milliseconds since the Unix epoch. Nothing is promised of which value comes back.
/// It takes no input; it panics only if the system clock reads before the epoch.
#[verifier::external_body]
pub(crate) fn now_millis() -> (r: i64) {
    chrono::Utc::now().timestamp_millis()
}

} // verus!
