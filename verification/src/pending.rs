//! Payment-pending markers.
//!
//! After a payment the portal balance often lags for days; a marker (when
//! the payment started, and the balance then) lets the card show "payment
//! pending" meanwhile. The marker stops counting once the balance drops
//! (the payment posted) or the window passes. One JSON file per provider.

use vstd::prelude::*;

use crate::archive::{safe, safe_text};
use crate::text::push_str;

verus! {

/// How long a marker lingers before it is taken as stale: two weeks.
pub const PENDING_WINDOW_SECS: u64 = 14 * 24 * 60 * 60;

/// The marker file of a provider: `<id>.json`, the id made safe.
pub fn file_for(id: &str) -> (r: String)
    ensures
        r@ == safe_text(id@) + ".json"@,
{
    let mut s = safe(id);
    push_str(&mut s, ".json");
    s
}

/// The current time in whole seconds since the Unix epoch.
pub fn now() -> u64 {
    crate::dates::unix_time_secs()
}

/// A marker set at `initiated_at` still counts as pending at `now`, given
/// whether the live balance has dropped (the payment posted): not posted,
/// and no more than the window has passed (a clock that went backwards
/// counts as no time passed).
pub fn still_pending(posted: bool, initiated_at: u64, now: u64) -> (r: bool)
    ensures
        r == (!posted && (if now >= initiated_at { now - initiated_at } else { 0 }) <= PENDING_WINDOW_SECS),
{
    if posted {
        return false;
    }
    now.saturating_sub(initiated_at) <= PENDING_WINDOW_SECS
}

} // verus!
