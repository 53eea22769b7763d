use dev_proxy::matcher::{matches_url, MatchType};
use dev_proxy::mock::{CreateMockRule, MockManager, MockResponse};

#[test]
fn exact_match_holds_on_equal_url() {
    assert!(matches_url(MatchType::Exact, "/health", "/health"));
    assert!(!matches_url(MatchType::Exact, "/health", "/health2"));
    assert!(!matches_url(MatchType::Exact, "/health", "/healt"));
}

#[test]
fn contains_matches_substring() {
    assert!(matches_url(MatchType::Contains, "api", "/api/users"));
    assert!(matches_url(MatchType::Contains, "", "/anything"));
    assert!(!matches_url(MatchType::Contains, "admin", "/api/users"));
}

#[test]
fn starts_with_matches_prefix() {
    assert!(matches_url(MatchType::StartsWith, "/api", "/api/users"));
    assert!(!matches_url(MatchType::StartsWith, "/users", "/api/users"));
}

#[test]
fn ends_with_matches_suffix() {
    assert!(matches_url(MatchType::EndsWith, ".json", "/data/all.json"));
    assert!(!matches_url(MatchType::EndsWith, ".xml", "/data/all.json"));
}

#[test]
fn regex_matches_compiled_pattern() {
    assert!(matches_url(MatchType::Regex, "^/api/.*", "/api/users"));
    assert!(!matches_url(MatchType::Regex, "^/api/.*", "/health"));
    assert!(matches_url(MatchType::Regex, "u.ers", "/api/users"));
}

#[test]
fn invalid_regex_never_matches() {
    assert!(!matches_url(MatchType::Regex, "[", "/anything"));
    assert!(!matches_url(MatchType::Regex, "[", "["));
    assert!(!matches_url(MatchType::Regex, "(unclosed", "(unclosed"));
}

#[test]
fn method_filter_requires_equality() {
    let mut mocks = MockManager::new();
    mocks.add_rule(CreateMockRule {
        name: "get-only".to_string(),
        enabled: true,
        priority: 0,
        method: Some("GET".to_string()),
        url_pattern: "/x".to_string(),
        url_match_type: MatchType::Exact,
        response: MockResponse {
            status: 200,
            headers: Vec::new(),
            body: String::new(),
        },
        delay_ms: None,
    });
    assert!(mocks.find_matching_rule("GET", "/x").is_some());
    assert!(mocks.find_matching_rule("POST", "/x").is_none());
    assert!(mocks.find_matching_rule("get", "/x").is_none());
}

#[test]
fn highest_priority_mock_wins() {
    let mut mocks = MockManager::new();
    mocks.add_rule(CreateMockRule {
        name: "low".to_string(),
        enabled: true,
        priority: 1,
        method: None,
        url_pattern: "/z".to_string(),
        url_match_type: MatchType::Exact,
        response: MockResponse {
            status: 200,
            headers: Vec::new(),
            body: "low body".to_string(),
        },
        delay_ms: None,
    });
    mocks.add_rule(CreateMockRule {
        name: "high".to_string(),
        enabled: true,
        priority: 5,
        method: None,
        url_pattern: "/z".to_string(),
        url_match_type: MatchType::Exact,
        response: MockResponse {
            status: 200,
            headers: Vec::new(),
            body: "high body".to_string(),
        },
        delay_ms: None,
    });
    let hit = mocks.find_matching_rule("GET", "/z").expect("a rule matches");
    assert_eq!(hit.response.body, "high body");
    assert_eq!(hit.priority, 5);
}

#[test]
fn disabled_rules_do_not_match() {
    let mut mocks = MockManager::new();
    let id = mocks.add_rule(CreateMockRule {
        name: "off".to_string(),
        enabled: true,
        priority: 0,
        method: None,
        url_pattern: "/x".to_string(),
        url_match_type: MatchType::Exact,
        response: MockResponse {
            status: 200,
            headers: Vec::new(),
            body: String::new(),
        },
        delay_ms: None,
    });
    mocks.toggle_rule(&id);
    assert!(mocks.find_matching_rule("GET", "/x").is_none());
}
