use dev_proxy::latency::{ApplyTo, CreateLatencyRule, DelayConfig, LatencyInjector, LatencyMatch};
use dev_proxy::matcher::MatchType;
use dev_proxy::mock::{CreateMockRule, MockManager, MockResponse, UpdateMockRule};
use dev_proxy::modifier::{CreateModifierRule, Modification, RequestMatch, ResponseModifier};
use dev_proxy::ratelimit::{
    CreateRateLimitRule, KeyType, RateLimit, RateLimitMatch, RateLimitResponse, RateLimiter,
};

fn sample_mock(name: &str, priority: i32, pattern: &str, body: &str) -> CreateMockRule {
    CreateMockRule {
        name: name.to_string(),
        enabled: true,
        priority,
        method: Some("GET".to_string()),
        url_pattern: pattern.to_string(),
        url_match_type: MatchType::Exact,
        response: MockResponse {
            status: 200,
            headers: Vec::new(),
            body: body.to_string(),
        },
        delay_ms: None,
    }
}

#[test]
fn mock_add_then_get_returns_created_rule() {
    let mut mocks = MockManager::new();
    let id = mocks.add_rule(sample_mock("health", 3, "/health", "ok"));
    let rule = mocks.get_rule(&id).expect("the created rule is found");
    assert_eq!(rule.id, id);
    assert_eq!(rule.name, "health");
    assert_eq!(rule.priority, 3);
    assert!(rule.enabled);
    assert_eq!(rule.url_pattern, "/health");
    assert_eq!(rule.response.body, "ok");
}

#[test]
fn mock_update_preserves_created_at() {
    let mut mocks = MockManager::new();
    let id = mocks.add_rule(sample_mock("old", 1, "/a", "x"));
    let before = mocks.get_rule(&id).unwrap();
    let updated = mocks.update_rule(UpdateMockRule {
        id: id.clone(),
        name: "new".to_string(),
        enabled: false,
        priority: 9,
        method: None,
        url_pattern: "/b".to_string(),
        url_match_type: MatchType::Contains,
        response: MockResponse {
            status: 201,
            headers: Vec::new(),
            body: "y".to_string(),
        },
        delay_ms: Some(4),
    });
    assert!(updated);
    let after = mocks.get_rule(&id).unwrap();
    assert_eq!(after.created_at, before.created_at);
    assert_eq!(after.name, "new");
    assert_eq!(after.priority, 9);
    assert!(!after.enabled);

    let missing = mocks.update_rule(UpdateMockRule {
        id: "no-such-id".to_string(),
        name: "n".to_string(),
        enabled: true,
        priority: 0,
        method: None,
        url_pattern: "/".to_string(),
        url_match_type: MatchType::Exact,
        response: MockResponse {
            status: 200,
            headers: Vec::new(),
            body: String::new(),
        },
        delay_ms: None,
    });
    assert!(!missing);
}

#[test]
fn mock_delete_then_get_returns_none() {
    let mut mocks = MockManager::new();
    let id = mocks.add_rule(sample_mock("gone", 0, "/x", ""));
    assert!(mocks.delete_rule(&id));
    assert!(mocks.get_rule(&id).is_none());
    assert!(!mocks.delete_rule(&id));
}

#[test]
fn mock_toggle_flips_enabled() {
    let mut mocks = MockManager::new();
    let id = mocks.add_rule(sample_mock("t", 0, "/x", ""));
    assert!(mocks.toggle_rule(&id));
    assert!(!mocks.get_rule(&id).unwrap().enabled);
    assert!(mocks.toggle_rule(&id));
    assert!(mocks.get_rule(&id).unwrap().enabled);
    assert!(!mocks.toggle_rule("missing"));
}

#[test]
fn mock_get_all_rules_sorted_by_priority_descending() {
    let mut mocks = MockManager::new();
    mocks.add_rule(sample_mock("low", 1, "/a", ""));
    mocks.add_rule(sample_mock("high", 5, "/b", ""));
    mocks.add_rule(sample_mock("mid", 3, "/c", ""));
    let all = mocks.get_all_rules();
    assert_eq!(all.len(), 3);
    assert_eq!(all[0].priority, 5);
    assert_eq!(all[1].priority, 3);
    assert_eq!(all[2].priority, 1);
}

#[test]
fn mock_clear_all_empties_the_store() {
    let mut mocks = MockManager::new();
    mocks.add_rule(sample_mock("a", 1, "/a", ""));
    mocks.add_rule(sample_mock("b", 2, "/b", ""));
    mocks.clear_all();
    assert!(mocks.get_all_rules().is_empty());
}

#[test]
fn rate_limit_store_roundtrip() {
    let mut limiter = RateLimiter::new();
    let id = limiter.add_rule(CreateRateLimitRule {
        name: "global".to_string(),
        enabled: true,
        priority: 2,
        match_request: RateLimitMatch {
            method: None,
            url_pattern: "/".to_string(),
            url_match_type: MatchType::StartsWith,
            key_type: KeyType::Global,
        },
        limit: RateLimit {
            max_requests: 2,
            window_seconds: 60,
            burst_size: None,
        },
        response: RateLimitResponse {
            status: 429,
            headers: Vec::new(),
            body: "slow".to_string(),
            delay_ms: None,
        },
    });
    let rule = limiter.get_rule(&id).expect("found");
    assert_eq!(rule.limit.max_requests, 2);
    assert_eq!(rule.response.body, "slow");
    assert!(limiter.delete_rule(&id));
    assert!(limiter.get_rule(&id).is_none());
}

#[test]
fn latency_store_roundtrip() {
    let mut injector = LatencyInjector::new();
    let id = injector.add_rule(CreateLatencyRule {
        name: "slow".to_string(),
        enabled: true,
        priority: 0,
        match_request: LatencyMatch {
            method: None,
            url_pattern: "/a".to_string(),
            url_match_type: MatchType::Exact,
            apply_to: ApplyTo::Response,
        },
        delay: DelayConfig::Fixed { delay_ms: 7 },
    });
    let rule = injector.get_rule(&id).expect("found");
    assert_eq!(rule.delay, DelayConfig::Fixed { delay_ms: 7 });
    assert!(injector.toggle_rule(&id));
    assert!(!injector.get_rule(&id).unwrap().enabled);
}

#[test]
fn modifier_store_roundtrip() {
    let mut modifier = ResponseModifier::new();
    let id = modifier.add_rule(CreateModifierRule {
        name: "rewrite".to_string(),
        enabled: true,
        priority: 1,
        match_request: RequestMatch {
            method: None,
            url_pattern: "/api".to_string(),
            url_match_type: MatchType::Contains,
            status_codes: None,
        },
        modifications: vec![Modification::ChangeStatus { status: 503 }],
    });
    let rule = modifier.get_rule(&id).expect("found");
    assert_eq!(rule.modifications.len(), 1);
    assert!(modifier.delete_rule(&id));
    assert!(modifier.get_rule(&id).is_none());
}

#[test]
fn added_rules_get_distinct_ids() {
    let mut mocks = MockManager::new();
    let id1 = mocks.add_rule(sample_mock("one", 1, "/a", ""));
    let id2 = mocks.add_rule(sample_mock("two", 2, "/b", ""));
    assert_ne!(id1, id2);
    assert_eq!(mocks.get_all_rules().len(), 2);
    assert!(mocks.get_rule(&id1).is_some());
    assert!(mocks.get_rule(&id2).is_some());
}
