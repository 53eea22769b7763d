use dev_proxy::control::{parse_filter_options, replay_target, route, ApiRoute};
use dev_proxy::latency::{
    ApplyTo, CreateLatencyRule, DelayConfig, LatencyInjector, LatencyMatch,
};
use dev_proxy::matcher::MatchType;
use dev_proxy::mock::{CreateMockRule, MockManager, MockResponse};
use dev_proxy::pipeline::{build_mock_response, extract_client_ip, intercept_at, Intercept};
use dev_proxy::ratelimit::{
    CreateRateLimitRule, KeyType, RateLimit, RateLimitMatch, RateLimitResponse, RateLimiter,
};

fn deny_all_rule() -> CreateRateLimitRule {
    CreateRateLimitRule {
        name: "deny".to_string(),
        enabled: true,
        priority: 0,
        match_request: RateLimitMatch {
            method: None,
            url_pattern: "/".to_string(),
            url_match_type: MatchType::StartsWith,
            key_type: KeyType::Global,
        },
        limit: RateLimit {
            max_requests: 0,
            window_seconds: 60,
            burst_size: None,
        },
        response: RateLimitResponse {
            status: 429,
            headers: Vec::new(),
            body: "no".to_string(),
            delay_ms: None,
        },
    }
}

fn health_mock() -> CreateMockRule {
    CreateMockRule {
        name: "health".to_string(),
        enabled: true,
        priority: 0,
        method: Some("GET".to_string()),
        url_pattern: "/health".to_string(),
        url_match_type: MatchType::Exact,
        response: MockResponse {
            status: 200,
            headers: Vec::new(),
            body: "ok".to_string(),
        },
        delay_ms: None,
    }
}

#[test]
fn rate_limit_denial_wins_over_a_matching_mock() {
    let mut limiter = RateLimiter::new();
    limiter.add_rule(deny_all_rule());
    let mut mocks = MockManager::new();
    mocks.add_rule(health_mock());
    let headers: Vec<(String, String)> = Vec::new();
    let decision = intercept_at(&mut limiter, &mocks, "GET", "/health", "c", &headers, 0);
    match decision {
        Intercept::Denied(rule, info) => {
            assert_eq!(rule.response.body, "no");
            assert_eq!(info.limit, 0);
        }
        _ => panic!("the denial must win over the mock"),
    }
}

#[test]
fn admitted_request_hits_the_mock() {
    let mut limiter = RateLimiter::new();
    let mut mocks = MockManager::new();
    mocks.add_rule(health_mock());
    let headers: Vec<(String, String)> = Vec::new();
    let decision = intercept_at(&mut limiter, &mocks, "GET", "/health", "c", &headers, 0);
    match decision {
        Intercept::Mocked(rule) => {
            let built = build_mock_response(&rule);
            assert_eq!(built.status, 200);
            assert_eq!(built.body, b"ok".to_vec());
            let ct = built
                .headers
                .iter()
                .find(|(n, _)| n == "content-type")
                .map(|(_, v)| v.clone());
            assert_eq!(ct.as_deref(), Some("application/json"));
        }
        _ => panic!("the mock must answer"),
    }
}

#[test]
fn unmatched_request_goes_forward() {
    let mut limiter = RateLimiter::new();
    let mocks = MockManager::new();
    let headers: Vec<(String, String)> = Vec::new();
    let decision = intercept_at(&mut limiter, &mocks, "GET", "/other", "c", &headers, 0);
    assert!(matches!(decision, Intercept::Forward));
}

#[test]
fn mock_rule_headers_survive_content_type_defaulting() {
    let mut rule_input = health_mock();
    rule_input.response.headers = vec![("content-type".to_string(), "text/plain".to_string())];
    let mut mocks = MockManager::new();
    mocks.add_rule(rule_input);
    let rule = mocks.find_matching_rule("GET", "/health").unwrap();
    let built = build_mock_response(&rule);
    let ct = built
        .headers
        .iter()
        .find(|(n, _)| n == "content-type")
        .map(|(_, v)| v.clone());
    assert_eq!(ct.as_deref(), Some("text/plain"));
}

#[test]
fn normal_latency_with_zero_deviation_is_the_mean() {
    let config = DelayConfig::Normal {
        mean_ms: 100,
        std_dev_ms: 0,
    };
    assert_eq!(config.calculate_delay(), 100);
}

#[test]
fn latency_draws_stay_in_their_ranges() {
    assert_eq!(DelayConfig::Fixed { delay_ms: 5 }.calculate_delay(), 5);
    let uniform = DelayConfig::Random {
        min_ms: 3,
        max_ms: 7,
    }
    .calculate_delay();
    assert!((3..=7).contains(&uniform));
    let never = DelayConfig::Spike {
        base_delay_ms: 1,
        spike_delay_ms: 9,
        spike_probability_ppm: 0,
    }
    .calculate_delay();
    assert_eq!(never, 1);
    let always = DelayConfig::Spike {
        base_delay_ms: 1,
        spike_delay_ms: 9,
        spike_probability_ppm: 1_000_000,
    }
    .calculate_delay();
    assert_eq!(always, 9);
}

#[test]
fn apply_delay_records_one_injection() {
    let mut injector = LatencyInjector::new();
    injector.add_rule(CreateLatencyRule {
        name: "resp".to_string(),
        enabled: true,
        priority: 0,
        match_request: LatencyMatch {
            method: Some("GET".to_string()),
            url_pattern: "/a".to_string(),
            url_match_type: MatchType::Exact,
            apply_to: ApplyTo::Response,
        },
        delay: DelayConfig::Normal {
            mean_ms: 100,
            std_dev_ms: 0,
        },
    });
    assert!(injector.apply_delay("GET", "/a", ApplyTo::Request).is_none());
    let applied = injector.apply_delay("GET", "/a", ApplyTo::Response);
    assert_eq!(applied, Some(100));
    let stats = injector.get_stats();
    assert_eq!(stats.total_injections, 1);
    assert_eq!(stats.total_delay_ms, 100);
    assert_eq!(stats.min_delay_ms, 100);
    assert_eq!(stats.max_delay_ms, 100);
    assert_eq!(stats.avg_delay_ms, 100);
    assert_eq!(stats.by_rule.len(), 1);
    assert_eq!(stats.by_rule[0].hits, 1);
    injector.reset_stats();
    assert_eq!(injector.get_stats().total_injections, 0);
    assert_eq!(injector.get_stats().min_delay_for_reading(), 0);
}

#[test]
fn client_ip_resolution_order() {
    let xff = vec![(
        "x-forwarded-for".to_string(),
        " 1.2.3.4 , 5.6.7.8".to_string(),
    )];
    assert_eq!(extract_client_ip(&xff), "1.2.3.4");
    let real = vec![("x-real-ip".to_string(), " 9.9.9.9 ".to_string())];
    assert_eq!(extract_client_ip(&real), "9.9.9.9");
    let cf = vec![("cf-connecting-ip".to_string(), "8.8.8.8".to_string())];
    assert_eq!(extract_client_ip(&cf), "8.8.8.8");
    let empty: Vec<(String, String)> = Vec::new();
    assert_eq!(extract_client_ip(&empty), "127.0.0.1");
    let blank_xff = vec![("x-forwarded-for".to_string(), "  ,x".to_string())];
    assert_eq!(extract_client_ip(&blank_xff), "127.0.0.1");
}

#[test]
fn api_routes_resolve_method_and_path() {
    assert!(matches!(
        route("GET", "/api/recordings"),
        ApiRoute::ListRecordings
    ));
    assert!(matches!(route("GET", "/api/stats"), ApiRoute::GetStats));
    match route("GET", "/api/recordings/abc") {
        ApiRoute::GetRecording(id) => assert_eq!(id, "abc"),
        _ => panic!("wrong route"),
    }
    match route("POST", "/api/recordings/abc/replay") {
        ApiRoute::ReplayRecording(id) => assert_eq!(id, "abc"),
        _ => panic!("wrong route"),
    }
    match route("POST", "/api/mocks/xyz/toggle") {
        ApiRoute::ToggleMock(id) => assert_eq!(id, "xyz"),
        _ => panic!("wrong route"),
    }
    match route("PUT", "/api/rate-limits/42") {
        ApiRoute::UpdateRateLimit(id) => assert_eq!(id, "42"),
        _ => panic!("wrong route"),
    }
    match route("POST", "/api/rate-limits/42/reset") {
        ApiRoute::ResetRateLimit(id) => assert_eq!(id, "42"),
        _ => panic!("wrong route"),
    }
    assert!(matches!(
        route("GET", "/api/rate-limits/stats"),
        ApiRoute::RateLimitStats
    ));
    assert!(matches!(
        route("GET", "/api/latency-stats"),
        ApiRoute::LatencyStatsRoute
    ));
    assert!(matches!(
        route("POST", "/api/latency-stats/reset"),
        ApiRoute::ResetLatencyStats
    ));
    assert!(matches!(route("DELETE", "/api/mocks"), ApiRoute::ClearMocks));
    assert!(matches!(route("PATCH", "/api/mocks"), ApiRoute::NotFound));
    assert!(matches!(route("GET", "/elsewhere"), ApiRoute::NotFound));
}

#[test]
fn filter_query_parsing_reads_each_field() {
    let f = parse_filter_options(Some("search=abc&method=GET&status=404&minDuration=5&maxDuration=90"));
    assert_eq!(f.search.as_deref(), Some("abc"));
    assert_eq!(f.method.as_deref(), Some("GET"));
    assert_eq!(f.status, Some(404));
    assert_eq!(f.min_duration, Some(5));
    assert_eq!(f.max_duration, Some(90));
    let empty = parse_filter_options(None);
    assert!(empty.search.is_none());
    assert!(empty.status.is_none());
    let encoded = parse_filter_options(Some("search=a%20b&status=notanumber&junk"));
    assert_eq!(encoded.search.as_deref(), Some("a b"));
    assert!(encoded.status.is_none());
}

#[test]
fn replay_target_joins_relative_urls() {
    assert_eq!(
        replay_target("http://localhost:8000", "/api/users"),
        "http://localhost:8000/api/users"
    );
    assert_eq!(
        replay_target("http://localhost:8000", "https://example.test/x"),
        "https://example.test/x"
    );
}

#[test]
fn empty_uniform_range_draws_its_lower_bound() {
    let config = DelayConfig::Random {
        min_ms: 9,
        max_ms: 3,
    };
    assert_eq!(config.calculate_delay(), 9);
}
