//! The trusted boundary: the few outside calls this library relies on.
//! Everything else in the crate is verified against these contracts.

use vstd::prelude::*;

verus! {

/// Relies on `String::push`: appends the given character to the end of the
/// string.
#[verifier::external_body]
pub(crate) fn push_char(s: &mut String, c: char)
    ensures
        final(s)@ == old(s)@.push(c),
{
    s.push(c)
}

/// Relies on `chrono::Utc::now` and `chrono::DateTime::timestamp_millis`: the
/// current time as milliseconds since the Unix epoch.  Nothing is assumed of
/// the clock's value; callers must hold for every outcome.
#[verifier::external_body]
pub(crate) fn clock_now_millis() -> i64 {
    chrono::Utc::now().timestamp_millis()
}

} // verus!
