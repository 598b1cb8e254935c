//! Clock readings and identifiers that the engine stamps on trades.
use std::time::{SystemTime, UNIX_EPOCH};
use uuid::Uuid;
use vstd::prelude::*;

verus! {

/// Relies on `std::time::SystemTime::now` and `duration_since(UNIX_EPOCH)`:
/// `None` when the clock stands before the epoch; nothing is known of the value.
#[verifier::external_body]
fn millis_since_epoch() -> (r: Option<u128>) {
    match SystemTime::now().duration_since(UNIX_EPOCH) {
        Ok(d) => Some(d.as_millis()),
        Err(_) => None,
    }
}

/// The stamp for a clock reading in milliseconds since the Unix epoch: the
/// reading cut to 64 bits, or 0 for a clock that stands before the epoch.
pub fn stamp_from_millis(ms: Option<u128>) -> (r: u64)
    ensures
        r == (match ms {
            Some(m) => m as u64,
            None => 0u64,
        }),
{
    match ms {
        Some(m) => m as u64,
        None => 0,
    }
}

/// Milliseconds since the Unix epoch, cut to 64 bits, or 0 when the clock
/// stands before it.
pub fn get_current_timestamp() -> (r: u64) {
    stamp_from_millis(millis_since_epoch())
}

/// Relies on `uuid::Uuid::new_v4` and its hyphenated text form: a fresh random
/// identifier of 36 characters.
#[verifier::external_body]
pub(crate) fn new_trade_id() -> (r: String)
    ensures
        r@.len() == 36,
{
    Uuid::new_v4().to_string()
}

} // verus!
