//! Local balance history.
//!
//! Every successful summary appends a snapshot to the provider's JSONL file,
//! except while the balance is unchanged and the last snapshot is recent,
//! so refreshing often does not bloat the file; an unchanged balance is
//! still recorded about daily, which keeps flat periods on the chart.

use vstd::prelude::*;

use crate::text::push_str;

verus! {

/// Re-record an unchanged balance only after this long.
pub const UNCHANGED_REFRESH_SECS: u64 = 23 * 60 * 60;

/// The history file of a provider: `<id>.jsonl`.
pub fn file_for(id: &str) -> (r: String)
    ensures
        r@ == id@ + ".jsonl"@,
{
    let mut s = String::new();
    push_str(&mut s, id);
    push_str(&mut s, ".jsonl");
    s
}

/// The current time in whole seconds since the Unix epoch.
pub fn now() -> u64 {
    crate::dates::unix_time_secs()
}

/// Whether a new snapshot is written at `now`, given the last one's time
/// and whether the new balance and due date repeat it: always when there is
/// none or something changed, otherwise once the refresh interval passed.
pub fn should_record(last: Option<(u64, bool)>, now: u64) -> (r: bool)
    ensures
        r == match last {
            None => true,
            Some((ts, unchanged)) => !unchanged
                || (if now >= ts { now - ts } else { 0 }) >= UNCHANGED_REFRESH_SECS,
        },
{
    match last {
        None => true,
        Some((ts, unchanged)) => !(unchanged && now.saturating_sub(ts) < UNCHANGED_REFRESH_SECS),
    }
}

} // verus!
