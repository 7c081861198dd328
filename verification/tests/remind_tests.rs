use utiman::remind::{parse_status, parse_time, plist_xml, Reminder, TimeError, LABEL};

#[test]
fn parse_time_ok_and_bounds() {
    assert_eq!(parse_time("09:00").unwrap(), (9, 0));
    assert_eq!(parse_time("23:59").unwrap(), (23, 59));
    assert!(parse_time("24:00").is_err());
    assert!(parse_time("9").is_err());
    assert!(parse_time("09:60").is_err());
}

#[test]
fn plist_roundtrips_through_parse_status() {
    let r = Reminder { hour: 8, minute: 30, within: 7 };
    let xml = plist_xml("/usr/local/bin/utiman", "/tmp/utiman-remind.log", r);
    assert!(xml.contains("<string>/usr/local/bin/utiman</string>"));
    assert!(xml.contains(&format!("<string>{LABEL}</string>")));
    assert_eq!(parse_status(&xml), Some(r));
}

#[test]
fn parse_status_defaults_within_when_absent() {
    let xml = "<key>Hour</key><integer>6</integer><key>Minute</key><integer>15</integer>";
    assert_eq!(parse_status(xml), Some(Reminder { hour: 6, minute: 15, within: 5 }));
}

#[test]
fn parse_time_errors_by_kind() {
    assert_eq!(parse_time("9"), Err(TimeError::NoColon));
    assert_eq!(parse_time("x:10"), Err(TimeError::BadHour));
    assert_eq!(parse_time("10:"), Err(TimeError::BadMinute));
    assert_eq!(parse_time("24:00"), Err(TimeError::OutOfRange));
    assert_eq!(parse_time(" 7 : 05 "), Ok((7, 5)));
    assert_eq!(parse_time("+7:05"), Ok((7, 5)));
}

#[test]
fn time_error_messages() {
    assert_eq!(TimeError::NoColon.message("9"), "time must look like HH:MM, got \"9\"");
    assert_eq!(TimeError::BadHour.message("x:1"), "bad hour");
    assert_eq!(TimeError::OutOfRange.message("24:00"), "time out of range (00:00–23:59): \"24:00\"");
}

#[test]
fn plist_carries_negative_window_and_log() {
    let r = Reminder { hour: 0, minute: 5, within: -2 };
    let xml = plist_xml("/opt/utiman", "/var/log/u.log", r);
    assert!(xml.contains("<string>-2</string>"));
    assert!(xml.contains("<key>StandardErrorPath</key><string>/var/log/u.log</string>"));
    assert_eq!(parse_status(&xml), Some(r));
}

#[test]
fn parse_status_needs_hour_and_minute() {
    assert_eq!(parse_status("<key>Hour</key><integer>6</integer>"), None);
    assert_eq!(parse_status("nothing here"), None);
}
