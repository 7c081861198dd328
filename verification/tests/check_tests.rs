use utiman::check::{applescript_escape, exit_code, failure_reason, flag, is_soon, report_exit_code, triage};

#[test]
fn when_phrasing() {
    assert_eq!(utiman::check::when(Some(-3)), "overdue 3d");
    assert_eq!(utiman::check::when(Some(0)), "due today");
    assert_eq!(utiman::check::when(Some(5)), "in 5d");
    assert_eq!(utiman::check::when(None), "date unknown");
}

#[test]
fn check_applescript_escaping() {
    assert_eq!(applescript_escape(r#"a"b\c"#), r#"a\"b\\c"#);
}

#[test]
fn exit_code_maps_soonness() {
    assert_eq!(exit_code(true), 0, "nothing soon → 0");
    assert_eq!(exit_code(false), 2, "something soon → 2 (cron acts)");
}

#[test]
fn triage_sorts_soonest_first_undated_last() {
    let names = vec!["later", "undated", "overdue", "soon"];
    let days = vec![Some(20), None, Some(-3), Some(2)];
    let order = triage(names, &days);
    assert_eq!(order, ["overdue", "soon", "later", "undated"]);
}

#[test]
fn is_soon_window_boundary_and_overdue() {
    assert!(is_soon(Some(-1), 5), "overdue is soon");
    assert!(is_soon(Some(0), 5), "due today is soon");
    assert!(is_soon(Some(5), 5), "exactly at the window is soon");
    assert!(!is_soon(Some(6), 5), "past the window is not soon");
    assert!(!is_soon(None, 5), "undated is never soon");
}

#[test]
fn triage_keeps_ties_in_order() {
    let names = vec!["a", "b", "c", "d"];
    let days = vec![Some(4), None, Some(4), Some(i64::MAX)];
    assert_eq!(triage(names, &days), ["a", "c", "b", "d"]);
}

#[test]
fn when_large_overdue() {
    assert_eq!(utiman::check::when(Some(-120)), "overdue 120d");
    assert_eq!(utiman::check::when(Some(i64::MAX)), format!("in {}d", i64::MAX));
}

#[test]
fn report_exit_code_over_a_report() {
    assert_eq!(report_exit_code(&vec![Some(20), None], 5), 0);
    assert_eq!(report_exit_code(&vec![Some(20), Some(5)], 5), 2);
    assert_eq!(report_exit_code(&vec![Some(-1)], 0), 2);
    assert_eq!(report_exit_code(&vec![], 5), 0);
}

#[test]
fn flag_marks_overdue_and_soon() {
    assert_eq!(flag(Some(-2), 5), "! ");
    assert_eq!(flag(Some(3), 5), "* ");
    assert_eq!(flag(Some(6), 5), "  ");
    assert_eq!(flag(None, 5), "  ");
}

#[test]
fn failure_reason_takes_first_nonblank_line() {
    assert_eq!(failure_reason("", true), "timed out");
    assert_eq!(failure_reason("", false), "couldn't fetch");
    assert_eq!(failure_reason("  \n\t\n", false), "couldn't fetch");
    assert_eq!(failure_reason("\n  error: session expired  \nmore", false), "session expired");
    assert_eq!(failure_reason("error:error: twice\r\n", false), "twice");
    assert_eq!(failure_reason("plain failure", false), "plain failure");
    assert_eq!(failure_reason("anything", true), "timed out");
}

#[test]
fn applescript_escape_leaves_plain_text() {
    assert_eq!(applescript_escape("plain text"), "plain text");
    assert_eq!(applescript_escape(""), "");
}
