use utiman::archive::{file_for, labels_sortable, merge_plan, safe, sort_newest_first};

fn strings(v: &[&str]) -> Vec<String> {
    v.iter().map(|s| s.to_string()).collect()
}

#[test]
fn sort_is_newest_first_dates_before_unparseable() {
    let labels = strings(&["2026-04-01", "mystery", "2026-06-01", "2026-05-01"]);
    assert!(labels_sortable(&labels));
    let sorted = sort_newest_first(labels.clone(), &labels);
    assert_eq!(sorted, ["2026-06-01", "2026-05-01", "2026-04-01", "mystery"]);
}

#[test]
fn unparseable_labels_keep_their_order() {
    let labels = strings(&["zeta", "Jun 2026", "alpha", "06/01/2026", "2025-12"]);
    let values = vec![1, 2, 3, 4, 5];
    assert_eq!(sort_newest_first(values, &labels), [2, 4, 5, 1, 3]);
}

#[test]
fn huge_years_are_not_sortable() {
    let labels = strings(&["01/01/99999999999999999", "2026-01-01"]);
    assert!(!labels_sortable(&labels));
}

#[test]
fn merge_plan_updates_and_appends() {
    let existing = strings(&["2026-05-01", "2026-06-01"]);
    assert_eq!(merge_plan(&existing, &strings(&["2026-06-01"])), [(1, false)]);
    assert_eq!(merge_plan(&existing, &strings(&["2026-07-01"])), [(2, true)]);
    assert_eq!(
        merge_plan(&existing, &strings(&["2026-07-01", "2026-05-01", "2026-07-01", "2026-08-01"])),
        [(2, true), (0, false), (2, false), (3, true)]
    );
}

#[test]
fn merge_plan_of_known_labels_adds_nothing() {
    let existing = strings(&["2026-05-01", "2026-06-01"]);
    let plan = merge_plan(&existing, &existing);
    assert_eq!(plan, [(0, false), (1, false)]);
}

#[test]
fn archive_file_names_are_safe() {
    assert_eq!(safe("fpl-electric"), "fpl-electric");
    assert_eq!(safe("../etc/passwd"), "___etc_passwd");
    assert_eq!(safe("é x"), "__x");
    assert_eq!(file_for("fpl", "usage"), "fpl__usage.jsonl");
    assert_eq!(file_for("a/b", "c d"), "a_b__c_d.jsonl");
}

#[test]
fn far_years_still_sort() {
    let labels = strings(&["2026-01-01", "1/1/10000000000000000"]);
    assert!(labels_sortable(&labels));
    let sorted = sort_newest_first(labels.clone(), &labels);
    assert_eq!(sorted, ["1/1/10000000000000000", "2026-01-01"]);
}
