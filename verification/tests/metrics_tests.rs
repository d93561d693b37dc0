use rev_proxy::metrics::{decompose_uptime, RequestMetrics};
use rev_proxy::ErrorKind;

fn count_for<'a>(list: &'a [(Vec<u8>, u64)], key: &[u8]) -> Option<u64> {
    list.iter().find(|(k, _)| k == key).map(|(_, v)| *v)
}

#[test]
fn totals_add_up_after_many_requests() {
    let mut m = RequestMetrics::new(0);
    let n: u64 = 100;
    for i in 0..n {
        let status = if i % 3 == 0 { 500 } else { 200 };
        m.record_request(&b"/a".to_vec(), &b"test".to_vec(), status, 5, 10);
    }
    assert_eq!(m.total_requests, n);
    assert_eq!(m.successful_requests + m.failed_requests, n);
    assert_eq!(m.successful_requests, 66);
    assert_eq!(m.failed_requests, 34);
    assert_eq!(m.total_request_time_ms, 500);
    assert_eq!(count_for(&m.requests_by_path, b"/a"), Some(100));
    assert_eq!(count_for(&m.env_requests, b"test"), Some(100));
}

#[test]
fn slowest_request_keeps_the_earliest_on_a_tie() {
    let mut m = RequestMetrics::new(0);
    m.record_request(&b"/pathA".to_vec(), &b"test".to_vec(), 200, 50, 1);
    m.record_request(&b"/pathB".to_vec(), &b"test".to_vec(), 200, 120, 1);
    m.record_request(&b"/pathC".to_vec(), &b"test".to_vec(), 200, 80, 1);
    m.record_request(&b"/pathD".to_vec(), &b"test".to_vec(), 200, 120, 1);
    assert_eq!(m.slowest_request_time_ms, 120);
    assert_eq!(m.slowest_request_path, b"/pathB".to_vec());
}

#[test]
fn response_size_is_overwritten_per_path() {
    let mut m = RequestMetrics::new(0);
    m.record_request(&b"/a".to_vec(), &b"test".to_vec(), 200, 1, 100);
    m.record_request(&b"/a".to_vec(), &b"test".to_vec(), 200, 1, 7);
    m.record_request(&b"/b".to_vec(), &b"prod".to_vec(), 200, 1, 3);
    assert_eq!(count_for(&m.response_sizes, b"/a"), Some(7));
    assert_eq!(count_for(&m.response_sizes, b"/b"), Some(3));
}

#[test]
fn status_boundaries_separate_success_from_failure() {
    let mut m = RequestMetrics::new(0);
    m.record_request(&b"/a".to_vec(), &b"test".to_vec(), 199, 1, 1);
    m.record_request(&b"/a".to_vec(), &b"test".to_vec(), 200, 1, 1);
    m.record_request(&b"/a".to_vec(), &b"test".to_vec(), 399, 1, 1);
    m.record_request(&b"/a".to_vec(), &b"test".to_vec(), 400, 1, 1);
    assert_eq!(m.successful_requests, 2);
    assert_eq!(m.failed_requests, 2);
}

#[test]
fn record_error_counts_each_recognized_kind() {
    let mut m = RequestMetrics::new(0);
    m.record_error(&ErrorKind::Connection);
    m.record_error(&ErrorKind::Connection);
    m.record_error(&ErrorKind::Timeout);
    m.record_error(&ErrorKind::Dns);
    m.record_error(&ErrorKind::Other);
    assert_eq!(m.connection_errors, 2);
    assert_eq!(m.timeout_errors, 1);
    assert_eq!(m.dns_errors, 1);
    assert_eq!(m.total_requests, 0);
}

#[test]
fn average_is_undefined_until_a_request_is_recorded() {
    let mut m = RequestMetrics::new(0);
    assert_eq!(m.average_request_time_ms(), None);
    m.record_request(&b"/a".to_vec(), &b"test".to_vec(), 200, 10, 1);
    m.record_request(&b"/a".to_vec(), &b"test".to_vec(), 200, 21, 1);
    assert_eq!(m.average_request_time_ms(), Some(15));
}

#[test]
fn default_metrics_are_all_zero() {
    let m = RequestMetrics::default();
    assert_eq!(m.total_requests, 0);
    assert_eq!(m.successful_requests, 0);
    assert_eq!(m.failed_requests, 0);
    assert_eq!(m.total_request_time_ms, 0);
    assert!(m.requests_by_path.is_empty());
    assert!(m.requests_by_status.is_empty());
    assert!(m.response_sizes.is_empty());
    assert_eq!(m.slowest_request_time_ms, 0);
    assert!(m.slowest_request_path.is_empty());
    assert_eq!(m.connection_errors, 0);
    assert_eq!(m.timeout_errors, 0);
    assert_eq!(m.dns_errors, 0);
    assert!(m.env_requests.is_empty());
    assert_eq!(m.start_time_ms, 0);
}

#[test]
fn uptime_decomposes_into_days_hours_minutes_seconds() {
    // 2 days, 3 hours, 4 minutes, 5 seconds
    let secs = 2 * 86400 + 3 * 3600 + 4 * 60 + 5;
    assert_eq!(decompose_uptime(secs), (2, 3, 4, 5));
    assert_eq!(decompose_uptime(0), (0, 0, 0, 0));
    assert_eq!(decompose_uptime(86399), (0, 23, 59, 59));
}
