use utiman::pending::{file_for, still_pending, PENDING_WINDOW_SECS};
use utiman::snapshots::{file_for as history_file_for, should_record, UNCHANGED_REFRESH_SECS};

#[test]
fn still_pending_logic() {
    let t = 1_700_000_000;
    // Same balance, just made: not posted, pending.
    assert!(still_pending(false, t, t));
    // Balance dropped: posted, not pending.
    assert!(!still_pending(true, t, t));
    // Balance unknown but recent: pending.
    assert!(still_pending(false, t, t + 3600));
    // Past the window: no longer shown.
    assert!(!still_pending(false, t, t + PENDING_WINDOW_SECS + 1));
}

#[test]
fn pending_window_edges() {
    assert_eq!(PENDING_WINDOW_SECS, 1_209_600);
    assert!(still_pending(false, 100, 100 + PENDING_WINDOW_SECS));
    assert!(still_pending(false, 500, 100));
    assert_eq!(file_for("fpl"), "fpl.json");
    assert_eq!(file_for("a/b"), "a_b.json");
}

#[test]
fn snapshots_skip_recent_unchanged_balances() {
    assert_eq!(UNCHANGED_REFRESH_SECS, 82_800);
    assert!(should_record(None, 0));
    assert!(should_record(Some((1000, false)), 1001));
    assert!(!should_record(Some((1000, true)), 1000 + UNCHANGED_REFRESH_SECS - 1));
    assert!(should_record(Some((1000, true)), 1000 + UNCHANGED_REFRESH_SECS));
    assert!(!should_record(Some((5000, true)), 10));
    assert_eq!(history_file_for("fpl"), "fpl.jsonl");
}
