use ramo::report::{
    insert, is_fresh, prune, reported_session, ReportMap, EMPTY_TTL, REPORT_TTL,
};

fn some(s: &str) -> Option<String> {
    Some(s.to_string())
}

#[test]
fn reports_count_until_they_expire() {
    assert_eq!(REPORT_TTL, 6 * 3600 * 1_000_000_000);
    assert_eq!(EMPTY_TTL, 30 * 1_000_000_000);
    assert!(is_fresh("s", 10, 10 + REPORT_TTL - 1));
    assert!(!is_fresh("s", 10, 10 + REPORT_TTL));
    assert!(is_fresh("", 10, 10 + EMPTY_TTL - 1));
    assert!(!is_fresh("", 10, 10 + EMPTY_TTL));
    assert!(is_fresh("", 10, 5));
}

#[test]
fn the_last_report_of_a_pane_is_shown() {
    let mut m = ReportMap::new();
    assert_eq!(reported_session(&m, "%1", 0), None);
    insert(&mut m, "%1", "ses_a", 0);
    insert(&mut m, "%2", "ses_b", 0);
    insert(&mut m, "%1", "", 100);
    assert_eq!(reported_session(&m, "%1", 100), some(""));
    assert_eq!(reported_session(&m, "%2", 100), some("ses_b"));
    assert_eq!(reported_session(&m, "%1", 100 + EMPTY_TTL), None);
    assert_eq!(reported_session(&m, "%2", 100 + EMPTY_TTL), some("ses_b"));
    assert_eq!(reported_session(&m, "%3", 100), None);
}

#[test]
fn pruning_keeps_the_fresh_reports_of_live_panes() {
    let mut m = ReportMap::new();
    insert(&mut m, "%1", "a", 0);
    insert(&mut m, "%2", "b", 0);
    insert(&mut m, "%3", "", 0);
    insert(&mut m, "%4", "d", 50);
    let live = vec!["%1".to_string(), "%3".to_string(), "%4".to_string(), "%9".to_string()];
    prune(&mut m, &live, EMPTY_TTL);
    // Nothing of a pruned report comes back, not even at an earlier time.
    assert_eq!(reported_session(&m, "%1", 0), some("a"));
    assert_eq!(reported_session(&m, "%2", 0), None);
    assert_eq!(reported_session(&m, "%3", 0), None);
    assert_eq!(reported_session(&m, "%4", EMPTY_TTL), some("d"));
    prune(&mut m, &Vec::new(), EMPTY_TTL);
    assert_eq!(reported_session(&m, "%1", 0), None);
}
