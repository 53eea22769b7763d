use dev_proxy::matcher::MatchType;
use dev_proxy::pipeline::build_rate_limit_response;
use dev_proxy::ratelimit::{
    CreateRateLimitRule, KeyType, RateLimit, RateLimitBucket, RateLimitMatch, RateLimitResponse,
    RateLimiter,
};

fn limit(max: u32, window: u32, burst: Option<u32>) -> RateLimit {
    RateLimit {
        max_requests: max,
        window_seconds: window,
        burst_size: burst,
    }
}

fn global_rule(max: u32, window: u32, burst: Option<u32>) -> CreateRateLimitRule {
    CreateRateLimitRule {
        name: "limit".to_string(),
        enabled: true,
        priority: 0,
        match_request: RateLimitMatch {
            method: None,
            url_pattern: "/".to_string(),
            url_match_type: MatchType::StartsWith,
            key_type: KeyType::Global,
        },
        limit: limit(max, window, burst),
        response: RateLimitResponse {
            status: 429,
            headers: Vec::new(),
            body: "slow".to_string(),
            delay_ms: None,
        },
    }
}

#[test]
fn bucket_admits_up_to_the_limit_then_denies() {
    let mut bucket = RateLimitBucket::new();
    let lim = limit(2, 60, None);
    let (a1, i1) = bucket.is_allowed(&lim, 0);
    assert!(a1);
    assert_eq!(i1.limit, 2);
    assert_eq!(i1.remaining, 2);
    assert!(i1.retry_after.is_none());
    let (a2, _) = bucket.is_allowed(&lim, 100);
    assert!(a2);
    let (a3, i3) = bucket.is_allowed(&lim, 200);
    assert!(!a3);
    assert_eq!(i3.limit, 2);
    assert_eq!(i3.remaining, 0);
    assert!(i3.retry_after.is_some());
}

#[test]
fn bucket_burst_extends_the_limit_once() {
    let mut bucket = RateLimitBucket::new();
    let lim = limit(1, 60, Some(1));
    assert!(bucket.is_allowed(&lim, 0).0);
    assert!(bucket.is_allowed(&lim, 1).0);
    assert!(!bucket.is_allowed(&lim, 2).0);
}

#[test]
fn bucket_recovers_after_a_quiet_window() {
    let mut bucket = RateLimitBucket::new();
    let lim = limit(2, 1, None);
    assert!(bucket.is_allowed(&lim, 0).0);
    assert!(bucket.is_allowed(&lim, 10).0);
    assert!(!bucket.is_allowed(&lim, 20).0);
    // a full window later the bucket admits the steady rate again
    assert!(bucket.is_allowed(&lim, 2000).0);
    assert!(bucket.is_allowed(&lim, 2010).0);
    assert!(!bucket.is_allowed(&lim, 2020).0);
}

#[test]
fn third_check_within_window_is_denied_with_headers() {
    let mut limiter = RateLimiter::new();
    limiter.add_rule(global_rule(2, 60, Some(0)));
    let headers: Vec<(String, String)> = Vec::new();
    assert!(limiter
        .check_rate_limit_at("GET", "/x", "1.1.1.1", &headers, 0)
        .is_none());
    assert!(limiter
        .check_rate_limit_at("GET", "/x", "1.1.1.1", &headers, 300)
        .is_none());
    let denial = limiter
        .check_rate_limit_at("GET", "/x", "1.1.1.1", &headers, 600)
        .expect("the third request is denied");
    let (rule, info) = denial;
    assert_eq!(info.limit, 2);
    assert_eq!(info.remaining, 0);
    assert!(info.retry_after.is_some());

    let built = build_rate_limit_response(&rule, &info);
    assert_eq!(built.status, 429);
    assert_eq!(built.body, b"slow".to_vec());
    let mut limit_hdr = None;
    let mut remaining_hdr = None;
    let mut retry_hdr = None;
    let mut content_type = None;
    for (name, value) in &built.headers {
        match name.as_str() {
            "x-ratelimit-limit" => limit_hdr = Some(value.clone()),
            "x-ratelimit-remaining" => remaining_hdr = Some(value.clone()),
            "retry-after" => retry_hdr = Some(value.clone()),
            "content-type" => content_type = Some(value.clone()),
            _ => {}
        }
    }
    assert_eq!(limit_hdr.as_deref(), Some("2"));
    assert_eq!(remaining_hdr.as_deref(), Some("0"));
    assert!(retry_hdr.is_some());
    assert_eq!(content_type.as_deref(), Some("application/json"));
}

#[test]
fn header_key_type_separates_buckets() {
    let mut limiter = RateLimiter::new();
    let mut rule = global_rule(1, 60, None);
    rule.match_request.key_type = KeyType::Header {
        name: "x-tenant".to_string(),
    };
    limiter.add_rule(rule);
    let tenant_a = vec![("x-tenant".to_string(), "a".to_string())];
    let tenant_b = vec![("x-tenant".to_string(), "b".to_string())];
    assert!(limiter
        .check_rate_limit_at("GET", "/x", "ip", &tenant_a, 0)
        .is_none());
    assert!(limiter
        .check_rate_limit_at("GET", "/x", "ip", &tenant_b, 1)
        .is_none());
    assert!(limiter
        .check_rate_limit_at("GET", "/x", "ip", &tenant_a, 2)
        .is_some());
}

#[test]
fn reset_bucket_clears_the_rule_accounting() {
    let mut limiter = RateLimiter::new();
    let id = limiter.add_rule(global_rule(1, 60, None));
    let headers: Vec<(String, String)> = Vec::new();
    assert!(limiter
        .check_rate_limit_at("GET", "/x", "c", &headers, 0)
        .is_none());
    assert!(limiter
        .check_rate_limit_at("GET", "/x", "c", &headers, 1)
        .is_some());
    limiter.reset_bucket(&id);
    assert!(limiter
        .check_rate_limit_at("GET", "/x", "c", &headers, 2)
        .is_none());
}

#[test]
fn bucket_stats_count_active_buckets() {
    let mut limiter = RateLimiter::new();
    limiter.add_rule(global_rule(5, 60, None));
    let headers: Vec<(String, String)> = Vec::new();
    let before = limiter.get_bucket_stats();
    assert_eq!(before.total_buckets, 0);
    assert_eq!(before.active_limits, 0);
    limiter.check_rate_limit_at("GET", "/x", "c", &headers, 0);
    let after = limiter.get_bucket_stats();
    assert_eq!(after.total_buckets, 1);
    assert_eq!(after.active_limits, 1);
}

#[test]
fn unmatched_requests_are_not_limited() {
    let mut limiter = RateLimiter::new();
    let mut rule = global_rule(0, 60, None);
    rule.match_request.url_pattern = "/only-this".to_string();
    rule.match_request.url_match_type = MatchType::Exact;
    limiter.add_rule(rule);
    let headers: Vec<(String, String)> = Vec::new();
    assert!(limiter
        .check_rate_limit_at("GET", "/other", "c", &headers, 0)
        .is_none());
    assert!(limiter
        .check_rate_limit_at("GET", "/only-this", "c", &headers, 0)
        .is_some());
}
