//! The wall clock.

use vstd::prelude::*;

verus! {

/// `std::time::SystemTime`, an instant of the system clock.
#[verifier::external_type_specification]
#[verifier::external_body]
pub struct ExSystemTime(std::time::SystemTime);

/// `std::time::SystemTime::now`; nothing is promised of the instant.
#[verifier::external_body]
fn system_now() -> (t: std::time::SystemTime) {
    std::time::SystemTime::now()
}

/// `SystemTime::duration_since` the Unix epoch; nothing where the instant is before
/// it. Nothing is promised of the duration.
#[verifier::external_body]
fn since_epoch(t: std::time::SystemTime) -> (d: Option<std::time::Duration>) {
    t.duration_since(std::time::UNIX_EPOCH).ok()
}

/// `Duration::as_millis`; nothing is promised of the count.
#[verifier::external_body]
fn millis(d: std::time::Duration) -> (n: u128) {
    d.as_millis()
}

/// The wall clock in ms since the Unix epoch; 0 before it. Any value may come back.
pub fn wall_ms() -> (ms: u64) {
    match since_epoch(system_now()) {
        Some(d) => (millis(d) % 0x1_0000_0000_0000_0000) as u64,
        None => 0,
    }
}

} // verus!
