//! The clocks the library reads. What they return depends on the time, so
//! nothing is promised of it; the logic that uses a reading takes it as an
//! argument and is verified for every value.
use vstd::prelude::*;

verus! {

#[verifier::external_type_specification]
#[verifier::external_body]
pub struct ExInstant(std::time::Instant);

/// `Instant::now()`: a reading of the monotonic clock.
#[verifier::external_body]
pub fn instant_now() -> (r: std::time::Instant) {
    std::time::Instant::now()
}

/// `Instant::elapsed` in whole milliseconds.
#[verifier::external_body]
pub fn elapsed_ms(since: &std::time::Instant) -> (r: u64) {
    since.elapsed().as_millis() as u64
}

/// `SystemTime::now().duration_since(UNIX_EPOCH)` in milliseconds (`as i64`);
/// `None` when the clock is before the epoch.
#[verifier::external_body]
pub fn unix_now_ms() -> (r: Option<i64>) {
    match std::time::SystemTime::now().duration_since(std::time::UNIX_EPOCH) {
        Ok(d) => Some(d.as_millis() as i64),
        Err(_) => None,
    }
}

} // verus!
