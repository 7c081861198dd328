use utiman::dates::{from_days_since_epoch, from_unix, parse_due, parse_label, today, Date};

#[test]
fn epoch_anchor() {
    assert_eq!(Date { year: 1970, month: 1, day: 1 }.days_from_epoch(), 0);
    assert_eq!(Date { year: 2000, month: 1, day: 1 }.days_from_epoch(), 10957);
}

#[test]
fn roundtrip_from_days() {
    for z in [0, 10957, 20000, -1, 19000] {
        assert_eq!(from_days_since_epoch(z).days_from_epoch(), z);
    }
}

#[test]
fn parse_iso_and_us() {
    assert_eq!(parse_due("2026-07-17"), Some(Date { year: 2026, month: 7, day: 17 }));
    assert_eq!(parse_due("8/5/2026"), Some(Date { year: 2026, month: 8, day: 5 }));
    assert_eq!(parse_due("Due 07/18/2026 now"), Some(Date { year: 2026, month: 7, day: 18 }));
    assert_eq!(parse_due("paid in full"), None);
    assert_eq!(parse_due("13/40/2026"), None);
}

#[test]
fn parse_label_month_and_yearmonth() {
    assert_eq!(parse_label("Jun 2026"), Some(Date { year: 2026, month: 6, day: 1 }));
    assert_eq!(parse_label("June 2026"), Some(Date { year: 2026, month: 6, day: 1 }));
    assert_eq!(parse_label("2026-06"), Some(Date { year: 2026, month: 6, day: 1 }));
    assert_eq!(parse_label("2026-06-26"), Some(Date { year: 2026, month: 6, day: 26 }));
    assert_eq!(parse_label("06/16/2026"), Some(Date { year: 2026, month: 6, day: 16 }));
    assert_eq!(parse_label("period 12"), None);
}

#[test]
fn parse_label_non_ascii_does_not_panic() {
    assert_eq!(parse_label("Facturación Jun 2026"), Some(Date { year: 2026, month: 6, day: 1 }));
    assert_eq!(parse_label("período eléctrico"), None);
}

#[test]
fn day_delta_sign() {
    let t = today();
    assert_eq!(t.days_from_today(), 0);
    let tomorrow = from_days_since_epoch(t.days_from_epoch() + 1);
    assert_eq!(tomorrow.days_from_today(), 1);
}

#[test]
fn leap_day_and_century_rules() {
    assert_eq!(from_days_since_epoch(11016), Date { year: 2000, month: 2, day: 29 });
    assert_eq!(Date { year: 2100, month: 3, day: 1 }.days_from_epoch()
        - Date { year: 2100, month: 2, day: 28 }.days_from_epoch(), 1);
    assert_eq!(from_days_since_epoch(-719468), Date { year: 0, month: 3, day: 1 });
}

#[test]
fn from_unix_floors_to_days() {
    assert_eq!(from_unix(0), Date { year: 1970, month: 1, day: 1 });
    assert_eq!(from_unix(86_399), Date { year: 1970, month: 1, day: 1 });
    assert_eq!(from_unix(-1), Date { year: 1969, month: 12, day: 31 });
    assert_eq!(from_unix(1_700_000_000), Date { year: 2023, month: 11, day: 14 });
}

#[test]
fn days_from_counts_between_dates() {
    let a = Date { year: 2026, month: 7, day: 18 };
    let b = Date { year: 2026, month: 7, day: 10 };
    assert_eq!(a.days_from(b), 8);
    assert_eq!(b.days_from(a), -8);
}

#[test]
fn parse_due_needs_a_plausible_date() {
    assert_eq!(parse_due("1969-12-31"), None);
    assert_eq!(parse_due("2026-7-4"), Some(Date { year: 2026, month: 7, day: 4 }));
    assert_eq!(parse_due("ref 12345 due 2026-01-02"), Some(Date { year: 2026, month: 1, day: 2 }));
}

#[test]
fn day_counts_reach_far_years() {
    let far = Date { year: 10_000_000_000_000_000, month: 1, day: 1 };
    assert!(far.day_count_fits());
    assert_eq!(far.days_from_epoch(), 3_652_424_999_999_280_472);
    let before = Date { year: -10_000_000_000_000_000, month: 1, day: 1 };
    assert_eq!(before.days_from_epoch(), -3_652_425_000_000_719_528);
    assert!(Date { year: 25_000_000_000_000_000, month: 1, day: 1 }.is_countable_from_today());
    let beyond = Date { year: 26_000_000_000_000_000, month: 1, day: 1 };
    assert!(!beyond.day_count_fits());
    assert!(!beyond.is_countable_from_today());
    assert!(today().is_countable_from_today());
}
