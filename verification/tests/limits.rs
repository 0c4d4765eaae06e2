use buzz::limits::{effective_limit, truncation_notice};

#[test]
fn effective_limit_prefers_request_within_cap() {
    assert_eq!(effective_limit(Some(10), 50, 500), 10);
    assert_eq!(effective_limit(None, 50, 500), 50);
    assert_eq!(effective_limit(Some(900), 50, 500), 500);
    assert_eq!(effective_limit(None, 800, 500), 500);
    assert_eq!(effective_limit(Some(500), 50, 500), 500);
}

#[test]
fn short_read_has_no_notice() {
    assert_eq!(truncation_notice(49, None, 50, 500), None);
    assert_eq!(truncation_notice(0, Some(1), 50, 500), None);
}

#[test]
fn full_read_at_default_suggests_larger_limit() {
    assert_eq!(
        truncation_notice(50, None, 50, 500).as_deref(),
        Some("showing 50 results \u{2014} the default limit of 50 was reached, so more may exist; pass a larger --limit (max 500)")
    );
}

#[test]
fn full_read_at_requested_limit() {
    assert_eq!(
        truncation_notice(120, Some(120), 50, 500).as_deref(),
        Some("showing 120 results \u{2014} --limit 120 was reached, so more may exist; pass a larger --limit (max 500)")
    );
}

#[test]
fn capped_request_suggests_paging() {
    assert_eq!(
        truncation_notice(500, Some(1000), 50, 500).as_deref(),
        Some("showing 500 results \u{2014} --limit 1000, capped at 500 was reached, so more may exist; narrow the window with --since / --before to page through the rest")
    );
}

#[test]
fn request_at_cap_suggests_paging() {
    assert_eq!(
        truncation_notice(500, Some(500), 50, 500).as_deref(),
        Some("showing 500 results \u{2014} --limit 500 was reached, so more may exist; narrow the window with --since / --before to page through the rest")
    );
}

#[test]
fn zero_limit_counts_any_read_as_full() {
    assert_eq!(
        truncation_notice(0, Some(0), 50, 500).as_deref(),
        Some("showing 0 results \u{2014} --limit 0 was reached, so more may exist; pass a larger --limit (max 500)")
    );
}
