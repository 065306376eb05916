use std::time::Duration;

use kube_docs_mcp::json::{to_text, Json};
use kube_docs_mcp::metrics::{bucket_index, Metrics, LATENCY_BUCKETS};

#[test]
fn buckets_by_latency() {
    assert_eq!(bucket_index(0), 0);
    assert_eq!(bucket_index(5), 0);
    assert_eq!(bucket_index(6), 1);
    assert_eq!(bucket_index(1000), 7);
    assert_eq!(bucket_index(2500), 8);
    assert_eq!(bucket_index(2501), 9);
    assert_eq!(LATENCY_BUCKETS, 10);
}

#[test]
fn records_counts_and_latency() {
    let mut m = Metrics::new();
    m.record("explain:k8s", "ok", Duration::from_millis(30));
    m.record("explain:k8s", "ok", Duration::from_millis(3));
    m.record("explain:k8s", "not_found", Duration::from_secs(4));
    m.record_millis("search_docs", "ok", 7);
    assert_eq!(m.count("explain:k8s", "ok"), 2);
    assert_eq!(m.count("explain:k8s", "not_found"), 1);
    assert_eq!(m.count("search_docs", "ok"), 1);
    assert_eq!(m.count("search_docs", "timeout"), 0);
    assert_eq!(m.bucket("explain:k8s", 3), 1);
    assert_eq!(m.bucket("explain:k8s", 0), 1);
    assert_eq!(m.bucket("explain:k8s", 9), 1);
    assert_eq!(m.bucket("search_docs", 1), 1);
    assert_eq!(m.bucket("nothing", 1), 0);
    assert!(m.can_record("explain:k8s", "ok"));
}

#[test]
fn snapshot_groups_counters() {
    let mut m = Metrics::default();
    m.record_millis("b", "ok", 1);
    m.record_millis("a", "timeout", 3000);
    m.record_millis("b", "error", 20);
    let text = to_text(&m.snapshot());
    assert_eq!(
        text,
        [
            r#"{"calls":{"a":{"timeout":1},"b":{"error":1,"ok":1}},"latency_ms":{"#,
            r#""a":{"gt_2500ms":1,"le_1000ms":0,"le_100ms":0,"le_10ms":0,"le_2500ms":0,"le_250ms":0,"le_25ms":0,"le_500ms":0,"le_50ms":0,"le_5ms":0},"#,
            r#""b":{"gt_2500ms":0,"le_1000ms":0,"le_100ms":0,"le_10ms":0,"le_2500ms":0,"le_250ms":0,"le_25ms":1,"le_500ms":0,"le_50ms":0,"le_5ms":1}}}"#,
        ]
        .concat()
    );
    assert!(matches!(Metrics::new().snapshot(), Json::Object(_)));
}

#[test]
fn uptime_starts_near_zero() {
    let m = Metrics::new();
    assert!(m.uptime_secs() < 60);
}

#[test]
fn durations_land_in_their_buckets() {
    let mut m = Metrics::default();
    m.record("explain", "ok", Duration::from_millis(5));
    m.record("explain", "error", Duration::from_millis(2501));
    let text = to_text(&m.snapshot());
    assert_eq!(
        text,
        [
            r#"{"calls":{"explain":{"error":1,"ok":1}},"latency_ms":{"#,
            r#""explain":{"gt_2500ms":1,"le_1000ms":0,"le_100ms":0,"le_10ms":0,"le_2500ms":0,"le_250ms":0,"le_25ms":0,"le_500ms":0,"le_50ms":0,"le_5ms":1}}}"#,
        ]
        .concat()
    );
}

#[test]
fn latency_totals_match_call_totals() {
    let mut m = Metrics::new();
    m.record_millis("explain", "ok", 3);
    m.record_millis("explain", "error", 700);
    m.record_millis("explain", "ok", 9000);
    m.record_millis("search_docs", "ok", 40);
    for tool in ["explain", "search_docs", "none"] {
        let calls: u64 = ["ok", "error", "timeout"].iter().map(|o| m.count(tool, o)).sum();
        let lat: u64 = (0..LATENCY_BUCKETS).map(|b| m.bucket(tool, b)).sum();
        assert_eq!(calls, lat);
    }
}
