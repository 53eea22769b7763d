use dev_proxy::control::parse_filter_options;
use dev_proxy::recorder::Recorder;
use dev_proxy::extract_endpoint;
use dev_proxy::storage::{RecordedRequest, RecordedResponse, Storage};

fn record(method: &str, url: &str, timestamp: u64) -> RecordedRequest {
    RecordedRequest {
        id: String::new(),
        timestamp,
        method: method.to_string(),
        url: url.to_string(),
        headers: Vec::new(),
        body: None,
        response: None,
        duration_ms: None,
    }
}

fn response(status: u16) -> RecordedResponse {
    RecordedResponse {
        status,
        headers: Vec::new(),
        body: None,
    }
}

#[test]
fn store_then_update_completes_the_record() {
    let mut storage = Storage::new();
    let id = storage.store_request(record("GET", "/a", 10));
    storage.update_response(&id, response(200), 42);
    let rec = storage.get_by_id(&id).expect("found");
    assert_eq!(rec.response.as_ref().map(|r| r.status), Some(200));
    assert_eq!(rec.duration_ms, Some(42));
}

#[test]
fn update_response_of_unknown_id_is_a_no_op() {
    let mut storage = Storage::new();
    storage.store_request(record("GET", "/a", 10));
    storage.update_response("missing", response(200), 1);
    let all = storage.get_all();
    assert_eq!(all.len(), 1);
    assert!(all[0].response.is_none());
}

#[test]
fn clear_empties_the_store() {
    let mut storage = Storage::new();
    storage.store_request(record("GET", "/a", 1));
    storage.store_request(record("GET", "/b", 2));
    storage.clear();
    assert!(storage.get_all().is_empty());
}

#[test]
fn get_all_is_newest_first() {
    let mut storage = Storage::new();
    storage.store_request(record("GET", "/old", 1));
    storage.store_request(record("GET", "/new", 9));
    storage.store_request(record("GET", "/mid", 5));
    let all = storage.get_all();
    assert_eq!(all.len(), 3);
    assert_eq!(all[0].url, "/new");
    assert_eq!(all[1].url, "/mid");
    assert_eq!(all[2].url, "/old");
}

#[test]
fn search_filter_returns_matches_newest_first() {
    let mut storage = Storage::new();
    storage.store_request(record("GET", "/a", 1));
    storage.store_request(record("GET", "/b", 2));
    storage.store_request(record("GET", "/a?q=1", 3));
    let filters = parse_filter_options(Some("search=a"));
    let hits = storage.get_filtered(&filters);
    assert_eq!(hits.len(), 2);
    assert_eq!(hits[0].url, "/a?q=1");
    assert_eq!(hits[1].url, "/a");
}

#[test]
fn search_is_case_insensitive_and_covers_bodies() {
    let mut storage = Storage::new();
    let mut with_body = record("POST", "/submit", 1);
    with_body.body = Some(b"Hello World".to_vec());
    storage.store_request(with_body);
    storage.store_request(record("GET", "/other", 2));
    let filters = parse_filter_options(Some("search=WORLD"));
    let hits = storage.get_filtered(&filters);
    assert_eq!(hits.len(), 1);
    assert_eq!(hits[0].url, "/submit");
}

#[test]
fn status_and_duration_filters_require_completion() {
    let mut storage = Storage::new();
    let id = storage.store_request(record("GET", "/done", 1));
    storage.update_response(&id, response(404), 50);
    storage.store_request(record("GET", "/pending", 2));
    let filters = parse_filter_options(Some("status=404"));
    let hits = storage.get_filtered(&filters);
    assert_eq!(hits.len(), 1);
    assert_eq!(hits[0].url, "/done");
    let slow = parse_filter_options(Some("minDuration=60"));
    assert!(storage.get_filtered(&slow).is_empty());
    let fast = parse_filter_options(Some("maxDuration=60"));
    assert_eq!(storage.get_filtered(&fast).len(), 1);
}

#[test]
fn stats_count_status_classes_and_durations() {
    let mut storage = Storage::new();
    let a = storage.store_request(record("GET", "/a", 1));
    storage.update_response(&a, response(200), 10);
    let b = storage.store_request(record("GET", "/b", 2));
    storage.update_response(&b, response(301), 20);
    let c = storage.store_request(record("GET", "/c", 3));
    storage.update_response(&c, response(404), 30);
    let d = storage.store_request(record("GET", "/d", 4));
    storage.update_response(&d, response(503), 60);
    let stats = storage.get_stats();
    assert_eq!(stats.total, 4);
    assert_eq!(stats.success, 1);
    assert_eq!(stats.redirects, 1);
    assert_eq!(stats.client_errors, 1);
    assert_eq!(stats.server_errors, 1);
    assert_eq!(stats.min_duration_ms, 10);
    assert_eq!(stats.max_duration_ms, 60);
    assert_eq!(stats.avg_duration_ms, 30);
}

#[test]
fn stats_min_is_zero_without_durations() {
    let mut storage = Storage::new();
    storage.store_request(record("GET", "/a", 1));
    let stats = storage.get_stats();
    assert_eq!(stats.min_duration_ms, 0);
    assert_eq!(stats.max_duration_ms, 0);
    assert_eq!(stats.avg_duration_ms, 0);
}

#[test]
fn extract_endpoint_strips_the_query_string() {
    assert_eq!(extract_endpoint("/foo?a=1"), "/foo");
    assert_eq!(extract_endpoint("/foo"), "/foo");
    assert_eq!(extract_endpoint("/foo?a=1?b=2"), "/foo");
    assert_eq!(extract_endpoint(""), "");
}

#[test]
fn analytics_top_endpoints_sorted_by_count() {
    let mut storage = Storage::new();
    storage.store_request(record("GET", "/a?x=1", 1));
    storage.store_request(record("GET", "/a?x=2", 2));
    let e = storage.store_request(record("GET", "/a", 3));
    storage.update_response(&e, response(500), 30);
    storage.store_request(record("POST", "/b", 4));
    let analytics = storage.get_analytics_at(10_000);
    assert_eq!(analytics.top_endpoints.len(), 2);
    assert_eq!(analytics.top_endpoints[0].endpoint, "/a");
    assert_eq!(analytics.top_endpoints[0].count, 3);
    assert_eq!(analytics.top_endpoints[0].errors, 1);
    assert_eq!(analytics.top_endpoints[1].endpoint, "/b");
    assert_eq!(analytics.top_endpoints[1].count, 1);

    let mut get_count = None;
    let mut post_count = None;
    for (m, c) in &analytics.method_distribution {
        match m.as_str() {
            "GET" => get_count = Some(*c),
            "POST" => post_count = Some(*c),
            _ => {}
        }
    }
    assert_eq!(get_count, Some(3));
    assert_eq!(post_count, Some(1));
}

#[test]
fn analytics_timeline_is_ascending_and_windowed() {
    let mut storage = Storage::new();
    let now: u64 = 10_000_000;
    storage.store_request(record("GET", "/recent-late", now - 10));
    storage.store_request(record("GET", "/recent-early", now - 1000));
    storage.store_request(record("GET", "/ancient", now - 7_200_000));
    let analytics = storage.get_analytics_at(now);
    assert_eq!(analytics.timeline.len(), 2);
    assert_eq!(analytics.timeline[0].method, "GET");
    assert!(analytics.timeline[0].timestamp <= analytics.timeline[1].timestamp);
    assert_eq!(analytics.timeline[0].timestamp, now - 1000);
    assert_eq!(analytics.timeline[1].timestamp, now - 10);
}

#[test]
fn recorder_respects_the_enabled_switch() {
    let mut off = Recorder::new(Storage::new(), false);
    assert!(off
        .record_request_at("GET", "/a", Vec::new(), None, 5)
        .is_none());
    assert!(off.storage.get_all().is_empty());

    let mut on = Recorder::new(Storage::new(), true);
    let id = on
        .record_request_at("GET", "/a", Vec::new(), Some(b"hi".to_vec()), 5)
        .expect("recording is on");
    let rec = on.storage.get_by_id(&id).expect("stored");
    assert_eq!(rec.method, "GET");
    assert_eq!(rec.url, "/a");
    assert_eq!(rec.timestamp, 5);
    assert_eq!(rec.body, Some(b"hi".to_vec()));
    assert!(rec.response.is_none());
}
