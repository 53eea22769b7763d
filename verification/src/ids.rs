//! Fresh rule identifiers and the wall clock. Both come from outside: the
//! library assumes nothing about the values beyond what is stated here.
use vstd::prelude::*;

verus! {

/// Relies on `uuid::Uuid::new_v4` and its hyphenated `Display` form: a
/// random version-4 identifier rendered as 36 ASCII characters. Nothing is
/// assumed about which identifier comes back.
#[verifier::external_body]
pub fn fresh_id() -> (r: String)
    ensures
        r@.len() == 36,
{
    uuid::Uuid::new_v4().to_string()
}

/// Relies on `chrono::Utc::now`: the wall-clock time in milliseconds since
/// the Unix epoch. Nothing is assumed about its value.
#[verifier::external_body]
pub fn now_millis() -> (r: u64) {
    u64::try_from(chrono::Utc::now().timestamp_millis()).unwrap_or(0)
}

} // verus!
