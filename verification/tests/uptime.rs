use uptime_monitor::model::{CheckResult, Incident, ValidationFailure, WebsiteStats};
use uptime_monitor::monitor::{next_wake, probe_status, record_cycle, ProbeOutcome};
use uptime_monitor::overview::{
    extract_incidents, get_daily_stats, get_monthly_stats, get_website_by_alias, get_websites,
};
use uptime_monitor::series::{aggregate_series, fill_data_gaps};
use uptime_monitor::store::Store;
use uptime_monitor::timeslot::{truncate_minute, truncate_to, SplitBy};

const HOUR: i64 = 3600;
const T: i64 = 3_600_000;

fn check(alias: &str, at: i64, status: i16) -> CheckResult {
    CheckResult { target_alias: alias.to_string(), observed_at: at, status }
}

#[test]
fn insert_then_duplicate_alias_rejected() {
    let mut store = Store::new();
    let r = store.insert_target("abc".to_string(), "https://example.com".to_string());
    assert!(r.is_ok());
    let r2 = store.insert_target("abc".to_string(), "https://other.example".to_string());
    assert_eq!(r2, Err(ValidationFailure::DuplicateAlias));
    assert_eq!(store.list_targets().len(), 1);
}

#[test]
fn malformed_url_rejected_before_persistence() {
    let mut store = Store::new();
    let r = store.insert_target("bad".to_string(), "not a url".to_string());
    assert_eq!(r, Err(ValidationFailure::MalformedUrl));
    assert!(store.list_targets().is_empty());
}

#[test]
fn wellformed_url_accepted() {
    let mut store = Store::new();
    let r = store.insert_target("ok".to_string(), "https://example.com/health".to_string());
    assert!(r.is_ok());
    let ts = store.list_targets();
    assert_eq!(ts[0].alias, "ok");
    assert_eq!(ts[0].url, "https://example.com/health");
}

#[test]
fn recorder_is_idempotent_per_minute_slot() {
    let mut store = Store::new();
    store
        .insert_target("abc".to_string(), "https://example.com".to_string())
        .unwrap();
    let alias = "abc".to_string();
    store.append_check_result(&alias, T, 200);
    store.append_check_result(&alias, T + 30, 500);
    let rs = store.query_check_results(&alias);
    assert_eq!(rs.len(), 1);
    assert_eq!(rs[0].observed_at, T);
    assert_eq!(rs[0].status, 200);
}

#[test]
fn recorder_drops_unknown_alias_silently() {
    let mut store = Store::new();
    let alias = "ghost".to_string();
    store.append_check_result(&alias, T, 200);
    assert!(store.query_check_results(&alias).is_empty());
}

#[test]
fn delete_cascades_and_overview_omits_target() {
    let mut store = Store::new();
    store
        .insert_target("abc".to_string(), "https://example.com".to_string())
        .unwrap();
    store
        .insert_target("keep".to_string(), "https://example.org".to_string())
        .unwrap();
    let alias = "abc".to_string();
    store.append_check_result(&alias, T, 200);
    store.append_check_result(&alias, T + 60, 500);
    store.delete_target(&alias);
    assert!(store.query_check_results(&alias).is_empty());
    let overview = get_websites(&store, T + 120);
    assert_eq!(overview.logs.len(), 1);
    assert_eq!(overview.logs[0].alias, "keep");
}

#[test]
fn record_cycle_stores_one_result_per_target() {
    let mut store = Store::new();
    store
        .insert_target("a".to_string(), "https://a.example".to_string())
        .unwrap();
    store
        .insert_target("b".to_string(), "https://b.example".to_string())
        .unwrap();
    let outcomes = vec![
        ProbeOutcome { target_alias: "a".to_string(), status: 200 },
        ProbeOutcome { target_alias: "b".to_string(), status: 0 },
    ];
    record_cycle(&mut store, &outcomes, T);
    let ra = store.query_check_results(&"a".to_string());
    let rb = store.query_check_results(&"b".to_string());
    assert_eq!(ra.len(), 1);
    assert_eq!(ra[0].status, 200);
    assert_eq!(rb.len(), 1);
    assert_eq!(rb[0].status, 0);
}

#[test]
fn probe_status_maps_codes_and_failures() {
    assert_eq!(probe_status(Some(200)), 200);
    assert_eq!(probe_status(Some(503)), 503);
    assert_eq!(probe_status(None), 0);
}

#[test]
fn next_wake_aligns_to_minute_plus_offset() {
    assert_eq!(next_wake(120), 182);
    assert_eq!(next_wake(59), 62);
    assert_eq!(next_wake(182), 242);
    assert!(next_wake(182) > 182);
}

#[test]
fn truncation_zeroes_the_right_fields() {
    assert_eq!(truncate_to(SplitBy::Hour, 7322), 7200);
    assert_eq!(truncate_to(SplitBy::Day, 90061), 86400);
    assert_eq!(truncate_to(SplitBy::Day, 86400), 86400);
    assert_eq!(truncate_minute(125), 120);
    assert_eq!(truncate_minute(0), 0);
}

#[test]
fn uptime_pct_two_of_three_is_66() {
    let rs = vec![
        check("abc", T, 200),
        check("abc", T + 60, 500),
        check("abc", T + 120, 200),
    ];
    let out = aggregate_series(&rs, SplitBy::Hour, 24);
    assert_eq!(out.len(), 1);
    assert_eq!(out[0], WebsiteStats { time: T, uptime_pct: Some(66) });
}

#[test]
fn uptime_pct_zero_of_four_is_0() {
    let rs = vec![
        check("abc", T, 500),
        check("abc", T + 60, 0),
        check("abc", T + 120, 404),
        check("abc", T + 180, 503),
    ];
    let out = aggregate_series(&rs, SplitBy::Hour, 24);
    assert_eq!(out.len(), 1);
    assert_eq!(out[0].uptime_pct, Some(0));
}

#[test]
fn uptime_pct_four_of_four_is_100() {
    let rs = vec![
        check("abc", T, 200),
        check("abc", T + 60, 200),
        check("abc", T + 120, 200),
        check("abc", T + 180, 200),
    ];
    let out = aggregate_series(&rs, SplitBy::Hour, 24);
    assert_eq!(out.len(), 1);
    assert_eq!(out[0].uptime_pct, Some(100));
}

#[test]
fn aggregate_keeps_most_recent_buckets_ascending() {
    let rs = vec![
        check("abc", T + 2 * HOUR, 200),
        check("abc", T, 500),
        check("abc", T + HOUR, 200),
    ];
    let out = aggregate_series(&rs, SplitBy::Hour, 2);
    assert_eq!(out.len(), 2);
    assert_eq!(out[0].time, T + HOUR);
    assert_eq!(out[1].time, T + 2 * HOUR);
}

#[test]
fn gap_fill_resorts_a_full_series_descending() {
    let data = vec![
        WebsiteStats { time: T, uptime_pct: Some(50) },
        WebsiteStats { time: T + 2 * HOUR, uptime_pct: Some(100) },
        WebsiteStats { time: T + HOUR, uptime_pct: Some(0) },
    ];
    let out = fill_data_gaps(data, 2, SplitBy::Hour, T + 2 * HOUR);
    assert_eq!(out.len(), 3);
    assert_eq!(out[0], WebsiteStats { time: T + 2 * HOUR, uptime_pct: Some(100) });
    assert_eq!(out[1], WebsiteStats { time: T + HOUR, uptime_pct: Some(0) });
    assert_eq!(out[2], WebsiteStats { time: T, uptime_pct: Some(50) });
}

#[test]
fn gap_fill_pads_sparse_series_with_no_data() {
    let now = T + 90;
    let data = vec![WebsiteStats { time: T, uptime_pct: Some(66) }];
    let out = fill_data_gaps(data, 4, SplitBy::Hour, now);
    assert_eq!(out.len(), 4);
    assert_eq!(out[0], WebsiteStats { time: T, uptime_pct: Some(66) });
    for (i, e) in out.iter().enumerate() {
        assert_eq!(e.time, T - (i as i64) * HOUR);
    }
    assert_eq!(out[1].uptime_pct, None);
    assert_eq!(out[2].uptime_pct, None);
    assert_eq!(out[3].uptime_pct, None);
}

#[test]
fn brand_new_target_gets_24_empty_hourly_entries() {
    let mut store = Store::new();
    store
        .insert_target("new".to_string(), "https://example.net".to_string())
        .unwrap();
    let now = T + 1234;
    let out = get_daily_stats(&store, &"new".to_string(), now);
    assert_eq!(out.len(), 24);
    let base = now - now % HOUR;
    for (i, e) in out.iter().enumerate() {
        assert_eq!(e.uptime_pct, None);
        assert_eq!(e.time, base - (i as i64) * HOUR);
    }
    for pair in out.windows(2) {
        assert_eq!(pair[0].time - pair[1].time, HOUR);
    }
}

#[test]
fn incidents_exclude_success_and_sort_ascending() {
    let rs = vec![
        check("abc", T + 300, 500),
        check("abc", T + 60, 404),
        check("abc", T + 180, 200),
    ];
    let out = extract_incidents(&rs);
    assert_eq!(out.len(), 2);
    assert_eq!(out[0], Incident { time: T + 60, status: 404 });
    assert_eq!(out[1], Incident { time: T + 300, status: 500 });
}

#[test]
fn end_to_end_three_checks_one_incident() {
    let mut store = Store::new();
    store
        .insert_target("abc".to_string(), "https://example.com".to_string())
        .unwrap();
    let alias = "abc".to_string();
    store.append_check_result(&alias, T, 200);
    store.append_check_result(&alias, T + 60, 500);
    store.append_check_result(&alias, T + 120, 200);
    let now = T + 120;
    let detail = get_website_by_alias(&store, &alias, now).unwrap();
    assert_eq!(detail.log.alias, "abc");
    assert_eq!(detail.log.url, "https://example.com");
    assert_eq!(detail.log.data.len(), 24);
    assert_eq!(detail.log.data[0], WebsiteStats { time: T, uptime_pct: Some(66) });
    assert_eq!(detail.monthly_data.len(), 30);
    assert_eq!(detail.incidents, vec![Incident { time: T + 60, status: 500 }]);
}

#[test]
fn unknown_alias_has_no_detail_view() {
    let store = Store::new();
    assert!(get_website_by_alias(&store, &"nope".to_string(), T).is_none());
}

#[test]
fn overview_lists_every_target_in_order() {
    let mut store = Store::new();
    store
        .insert_target("a".to_string(), "https://a.example".to_string())
        .unwrap();
    store
        .insert_target("b".to_string(), "https://b.example".to_string())
        .unwrap();
    store.append_check_result(&"b".to_string(), T, 200);
    let overview = get_websites(&store, T + 60);
    assert_eq!(overview.logs.len(), 2);
    assert_eq!(overview.logs[0].alias, "a");
    assert_eq!(overview.logs[1].alias, "b");
    assert_eq!(overview.logs[0].data.len(), 24);
    assert_eq!(overview.logs[1].data.len(), 24);
    assert_eq!(overview.logs[1].data[0].uptime_pct, Some(100));
}

#[test]
fn monthly_series_has_30_daily_entries() {
    let mut store = Store::new();
    store
        .insert_target("abc".to_string(), "https://example.com".to_string())
        .unwrap();
    let alias = "abc".to_string();
    store.append_check_result(&alias, T, 200);
    store.append_check_result(&alias, T + 60, 0);
    let out = get_monthly_stats(&store, &alias, T + 120);
    assert_eq!(out.len(), 30);
    let day_start = T - T % 86400;
    assert!(out.iter().any(|e| e.time == day_start && e.uptime_pct == Some(50)));
}
