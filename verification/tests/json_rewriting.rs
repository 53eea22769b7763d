use dev_proxy::json::{json_to_string, parse_json, JsonValue};
use dev_proxy::matcher::MatchType;
use dev_proxy::modifier::{
    modify_json_body, replace_body_bytes, CreateModifierRule, Modification, RequestMatch,
    ResponseModifier,
};
use dev_proxy::pipeline::finish_forwarded;

fn chars(s: &str) -> Vec<char> {
    s.chars().collect()
}

#[test]
fn modify_json_sets_a_nested_path() {
    let body = b"{\"a\":{\"b\":1}}".to_vec();
    let out = modify_json_body(&body, "a.b", &JsonValue::Number("2".to_string()));
    assert_eq!(String::from_utf8(out).unwrap(), "{\"a\":{\"b\":2}}");
}

#[test]
fn modify_json_appends_a_new_top_level_key() {
    let body = b"{\"a\":1}".to_vec();
    let out = modify_json_body(&body, "b", &JsonValue::Bool(true));
    assert_eq!(String::from_utf8(out).unwrap(), "{\"a\":1,\"b\":true}");
}

#[test]
fn modify_json_missing_intermediate_is_a_no_op() {
    let body = b"{\"a\":1}".to_vec();
    let out = modify_json_body(&body, "x.y", &JsonValue::Number("2".to_string()));
    assert_eq!(out, body);
}

#[test]
fn modify_json_non_json_body_is_a_no_op() {
    let body = b"plain text".to_vec();
    let out = modify_json_body(&body, "a", &JsonValue::Null);
    assert_eq!(out, body);
    let invalid_utf8 = vec![0xff, 0xfe, 0x01];
    let out2 = modify_json_body(&invalid_utf8, "a", &JsonValue::Null);
    assert_eq!(out2, invalid_utf8);
}

#[test]
fn json_parse_then_serialize_keeps_compact_documents() {
    let doc = "{\"s\":\"hi\",\"n\":-2.5e3,\"b\":false,\"v\":null,\"l\":[1,2,{\"x\":\"y\"}]}";
    let parsed = parse_json(&chars(doc)).expect("parses");
    assert_eq!(json_to_string(&parsed), doc);
}

#[test]
fn json_parser_rejects_malformed_documents() {
    assert!(parse_json(&chars("{")).is_none());
    assert!(parse_json(&chars("{\"a\":}")).is_none());
    assert!(parse_json(&chars("[1,]")).is_none());
    assert!(parse_json(&chars("nul")).is_none());
    assert!(parse_json(&chars("{} trailing")).is_none());
}

#[test]
fn json_string_escapes_round_trip() {
    let doc = "{\"a\":\"line\\nbreak \\\"quoted\\\"\\u0041\"}";
    let parsed = parse_json(&chars(doc)).expect("parses");
    let out = json_to_string(&parsed);
    assert_eq!(out, "{\"a\":\"line\\nbreak \\\"quoted\\\"A\"}");
}

#[test]
fn replace_body_literal_replaces_every_occurrence() {
    let body = b"foo foo".to_vec();
    let out = replace_body_bytes(&body, "foo", "bar", false);
    assert_eq!(out, b"bar bar".to_vec());
}

#[test]
fn replace_body_regex_and_invalid_pattern() {
    let body = b"foo foo".to_vec();
    let out = replace_body_bytes(&body, "o+", "0", true);
    assert_eq!(out, b"f0 f0".to_vec());
    let unchanged = replace_body_bytes(&body, "[", "0", true);
    assert_eq!(unchanged, body);
}

#[test]
fn modifier_pipeline_rewrites_body_and_repairs_framing() {
    let mut modifier = ResponseModifier::new();
    modifier.add_rule(CreateModifierRule {
        name: "swap".to_string(),
        enabled: true,
        priority: 0,
        match_request: RequestMatch {
            method: None,
            url_pattern: "/api".to_string(),
            url_match_type: MatchType::Contains,
            status_codes: None,
        },
        modifications: vec![Modification::ReplaceBody {
            pattern: "foo".to_string(),
            replacement: "bar".to_string(),
            use_regex: false,
        }],
    });
    let mut headers = vec![
        ("transfer-encoding".to_string(), "chunked".to_string()),
        ("content-length".to_string(), "999".to_string()),
    ];
    let mut body = b"foo foo".to_vec();
    let (status, delay, _) =
        finish_forwarded(&modifier, "GET", "/api/data", 200, &mut headers, &mut body);
    assert_eq!(status, 200);
    assert_eq!(delay, 0);
    assert_eq!(body, b"bar bar".to_vec());
    let mut content_length = None;
    for (name, value) in &headers {
        assert_ne!(name.as_str(), "transfer-encoding");
        if name == "content-length" {
            content_length = Some(value.clone());
        }
    }
    assert_eq!(content_length.as_deref(), Some("7"));
}

#[test]
fn modifications_apply_in_order_and_accumulate() {
    let mut modifier = ResponseModifier::new();
    modifier.add_rule(CreateModifierRule {
        name: "all".to_string(),
        enabled: true,
        priority: 0,
        match_request: RequestMatch {
            method: None,
            url_pattern: "/".to_string(),
            url_match_type: MatchType::StartsWith,
            status_codes: None,
        },
        modifications: vec![
            Modification::ChangeStatus { status: 500 },
            Modification::AddHeader {
                name: "x-flag".to_string(),
                value: "on".to_string(),
            },
            Modification::RemoveHeader {
                name: "server".to_string(),
            },
            Modification::InjectDelay { delay_ms: 5 },
            Modification::ChangeStatus { status: 503 },
            Modification::InjectDelay { delay_ms: 7 },
        ],
    });
    let mut headers = vec![("server".to_string(), "nginx".to_string())];
    let mut body = Vec::new();
    let (status, delay, _) =
        modifier.apply_modifications("GET", "/x", 200, &mut headers, &mut body);
    assert_eq!(status, 503);
    assert_eq!(delay, 12);
    assert!(headers.iter().any(|(n, v)| n == "x-flag" && v == "on"));
    assert!(!headers.iter().any(|(n, _)| n == "server"));
}

#[test]
fn status_code_filter_limits_modifier_rules() {
    let mut modifier = ResponseModifier::new();
    modifier.add_rule(CreateModifierRule {
        name: "errors-only".to_string(),
        enabled: true,
        priority: 0,
        match_request: RequestMatch {
            method: None,
            url_pattern: "/".to_string(),
            url_match_type: MatchType::StartsWith,
            status_codes: Some(vec![500, 502]),
        },
        modifications: vec![Modification::ChangeStatus { status: 200 }],
    });
    let mut headers = Vec::new();
    let mut body = Vec::new();
    let (kept, _, _) = modifier.apply_modifications("GET", "/x", 404, &mut headers, &mut body);
    assert_eq!(kept, 404);
    let (rewritten, _, _) =
        modifier.apply_modifications("GET", "/x", 502, &mut headers, &mut body);
    assert_eq!(rewritten, 200);
}

#[test]
fn duplicate_keys_keep_textual_order_and_first_wins() {
    let doc = "{\"k\":1,\"k\":2}";
    let parsed = parse_json(&chars(doc)).expect("parses");
    assert_eq!(json_to_string(&parsed), doc);
    let body = doc.as_bytes().to_vec();
    let out = modify_json_body(&body, "k", &JsonValue::Number("9".to_string()));
    assert_eq!(String::from_utf8(out).unwrap(), "{\"k\":9,\"k\":2}");
}
