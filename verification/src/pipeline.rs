//! The per-request evaluation order, and the responses it synthesises.
//!
//! A request is checked against the rate limiter first; only when it is
//! admitted is the mock engine consulted; only without a mock hit is the
//! request forwarded. The functions here decide; the caller performs the
//! network work and the sleeps.
use vstd::prelude::*;

use crate::headers::{hcontains, header_contains, header_get, header_remove, header_set, hlookup};
use crate::mock::{mock_matches, same_mock, MockManager, MockRule};
use crate::modifier::ResponseModifier;
use crate::ratelimit::{
    bucket_model_of, bucket_step, is_best_rl, lemma_best_rl_unique, rl_bucket_key, rl_denies,
    rl_matches, same_rl, RateLimitInfo, RateLimitRule, RateLimiter,
};
use crate::strutil::{
    before_char, chars_before, chars_to_string, chars_trim, chars_vec, dec_rep, trimmed,
    u64_to_string,
};
use vstd::string::StrSliceExecFns;

verus! {

/// The client address a header list resolves to: the first populated of the
/// forwarding headers (the leftmost element of `x-forwarded-for`, trimmed),
/// else the loopback address.
pub open spec fn client_ip_of(h: Seq<(String, String)>) -> Seq<char> {
    if xff_candidate(h) is Some {
        xff_candidate(h).unwrap()
    } else if plain_candidate(h, "x-real-ip"@) is Some {
        plain_candidate(h, "x-real-ip"@).unwrap()
    } else if plain_candidate(h, "cf-connecting-ip"@) is Some {
        plain_candidate(h, "cf-connecting-ip"@).unwrap()
    } else if plain_candidate(h, "true-client-ip"@) is Some {
        plain_candidate(h, "true-client-ip"@).unwrap()
    } else {
        "127.0.0.1"@
    }
}

/// The trimmed leftmost element of `x-forwarded-for`, when non-empty.
pub open spec fn xff_candidate(h: Seq<(String, String)>) -> Option<Seq<char>> {
    match hlookup(h, "x-forwarded-for"@) {
        Some(v) => {
            let first = trimmed(before_char(v, ','));
            if first.len() > 0 {
                Some(first)
            } else {
                None
            }
        },
        None => None,
    }
}

/// The trimmed value of a plain address header, when non-empty.
pub open spec fn plain_candidate(h: Seq<(String, String)>, name: Seq<char>) -> Option<Seq<char>> {
    match hlookup(h, name) {
        Some(v) => {
            let t = trimmed(v);
            if t.len() > 0 {
                Some(t)
            } else {
                None
            }
        },
        None => None,
    }
}

fn try_plain(h: &Vec<(String, String)>, name: &str) -> (r: Option<String>)
    ensures
        match r {
            Some(v) => plain_candidate(h@, name@) == Some(v@),
            None => plain_candidate(h@, name@) is None,
        },
{
    match header_get(h, name) {
        Some(v) => {
            let cv = chars_vec(v.as_str());
            let t = chars_trim(&cv);
            if t.len() > 0 {
                Some(chars_to_string(&t))
            } else {
                None
            }
        },
        None => None,
    }
}

/// Resolves the client address from the request headers.
pub fn extract_client_ip(h: &Vec<(String, String)>) -> (r: String)
    ensures
        r@ == client_ip_of(h@),
{
    match header_get(h, "x-forwarded-for") {
        Some(v) => {
            let cv = chars_vec(v.as_str());
            let first = chars_before(&cv, ',');
            let t = chars_trim(&first);
            if t.len() > 0 {
                return chars_to_string(&t);
            }
        },
        None => {},
    }
    match try_plain(h, "x-real-ip") {
        Some(v) => {
            return v;
        },
        None => {},
    }
    match try_plain(h, "cf-connecting-ip") {
        Some(v) => {
            return v;
        },
        None => {},
    }
    match try_plain(h, "true-client-ip") {
        Some(v) => {
            return v;
        },
        None => {},
    }
    let mut fallback = String::new();
    fallback.append("127.0.0.1");
    fallback
}

/// A synthesised response: status, headers, body bytes.
pub struct BuiltResponse {
    pub status: u16,
    pub headers: Vec<(String, String)>,
    pub body: Vec<u8>,
}

/// Builds the denial response for a rate-limited request: the rule's own
/// headers with `content-type` defaulted, then the bucket's accounting
/// headers (which take precedence over same-named rule headers), the rule's
/// status (429 when it is not a sendable code), and the rule's body.
pub fn build_rate_limit_response(rule: &RateLimitRule, info: &RateLimitInfo) -> (r: BuiltResponse)
    ensures
        r.status == if 100 <= rule.response.status <= 999 {
            rule.response.status
        } else {
            429u16
        },
        hlookup(r.headers@, "x-ratelimit-limit"@) == Some(dec_rep(info.limit as nat)),
        hlookup(r.headers@, "x-ratelimit-remaining"@) == Some(dec_rep(info.remaining as nat)),
        hlookup(r.headers@, "x-ratelimit-reset"@) == Some(dec_rep(info.reset_in_seconds as nat)),
        match info.retry_after {
            Some(v) => hlookup(r.headers@, "retry-after"@) == Some(dec_rep(v as nat)),
            None => hlookup(r.headers@, "retry-after"@) == hlookup(
                rule.response.headers@,
                "retry-after"@,
            ),
        },
        hcontains(rule.response.headers@, "content-type"@) ==> hlookup(
            r.headers@,
            "content-type"@,
        ) == hlookup(rule.response.headers@, "content-type"@),
        !hcontains(rule.response.headers@, "content-type"@) ==> hlookup(
            r.headers@,
            "content-type"@,
        ) == Some("application/json"@),
        r.body@ == vstd::utf8::encode_utf8(rule.response.body@),
{
    proof {
        reveal_strlit("x-ratelimit-limit");
        reveal_strlit("x-ratelimit-remaining");
        reveal_strlit("x-ratelimit-reset");
        reveal_strlit("retry-after");
        reveal_strlit("content-type");
        assert("content-type"@.len() == 12);
        assert("retry-after"@.len() == 11);
        assert("x-ratelimit-limit"@.len() == 17);
        assert("x-ratelimit-remaining"@.len() == 21);
        assert("x-ratelimit-reset"@.len() == 17);
        assert("x-ratelimit-limit"@[12] == 'l');
        assert("x-ratelimit-reset"@[12] == 'r');
        assert("content-type"@ != "x-ratelimit-limit"@);
        assert("content-type"@ != "x-ratelimit-remaining"@);
        assert("content-type"@ != "x-ratelimit-reset"@);
        assert("content-type"@ != "retry-after"@);
        assert("retry-after"@ != "x-ratelimit-limit"@);
        assert("retry-after"@ != "x-ratelimit-remaining"@);
        assert("retry-after"@ != "x-ratelimit-reset"@);
        assert("x-ratelimit-limit"@ != "x-ratelimit-remaining"@);
        assert("x-ratelimit-limit"@ != "x-ratelimit-reset"@);
        assert("x-ratelimit-remaining"@ != "x-ratelimit-reset"@);
    }
    let status = if rule.response.status >= 100 && rule.response.status <= 999 {
        rule.response.status
    } else {
        429
    };
    let mut headers = crate::headers::clone_headers(&rule.response.headers);
    if !header_contains(&headers, "content-type") {
        let mut ct = String::new();
        ct.append("application/json");
        header_set(&mut headers, "content-type", ct);
    }
    header_set(&mut headers, "x-ratelimit-limit", u64_to_string(info.limit as u64));
    header_set(&mut headers, "x-ratelimit-remaining", u64_to_string(info.remaining as u64));
    header_set(&mut headers, "x-ratelimit-reset", u64_to_string(info.reset_in_seconds));
    match info.retry_after {
        Some(v) => {
            header_set(&mut headers, "retry-after", u64_to_string(v));
        },
        None => {},
    }
    let body = rule.response.body.as_str().as_bytes_vec();
    BuiltResponse { status, headers, body }
}

/// Builds a mock rule's response: its status (200 when it is not a sendable
/// code), its headers with `content-type` defaulted, and its body.
pub fn build_mock_response(rule: &MockRule) -> (r: BuiltResponse)
    ensures
        r.status == if 100 <= rule.response.status <= 999 {
            rule.response.status
        } else {
            200u16
        },
        forall|x: Seq<char>|
            x != "content-type"@ ==> #[trigger] hlookup(r.headers@, x) == hlookup(
                rule.response.headers@,
                x,
            ),
        hcontains(rule.response.headers@, "content-type"@) ==> hlookup(
            r.headers@,
            "content-type"@,
        ) == hlookup(rule.response.headers@, "content-type"@),
        !hcontains(rule.response.headers@, "content-type"@) ==> hlookup(
            r.headers@,
            "content-type"@,
        ) == Some("application/json"@),
        r.body@ == vstd::utf8::encode_utf8(rule.response.body@),
{
    let status = if rule.response.status >= 100 && rule.response.status <= 999 {
        rule.response.status
    } else {
        200
    };
    let mut headers = crate::headers::clone_headers(&rule.response.headers);
    if !header_contains(&headers, "content-type") {
        let mut ct = String::new();
        ct.append("application/json");
        proof {
            reveal_strlit("application/json");
        }
        header_set(&mut headers, "content-type", ct);
    }
    let body = rule.response.body.as_str().as_bytes_vec();
    BuiltResponse { status, headers, body }
}

/// What the pipeline decided for a request before any forwarding.
pub enum Intercept {
    Denied(RateLimitRule, RateLimitInfo),
    Mocked(MockRule),
    Forward,
}

/// The interception decision at time `now_ms`, in the fixed order: the rate
/// limit is checked first, and only an admitted request consults the mock
/// engine. A request a rate-limit rule denies is `Denied` whatever mock
/// rules exist; an admitted request with a matching enabled mock rule is
/// `Mocked` by a highest-priority one; anything else goes `Forward`.
pub fn intercept_at(
    rate_limiter: &mut RateLimiter,
    mocks: &MockManager,
    method: &str,
    url: &str,
    client_key: &str,
    headers: &Vec<(String, String)>,
    now_ms: u64,
) -> (r: Intercept)
    requires
        old(rate_limiter).wf(),
    ensures
        final(rate_limiter).wf(),
        final(rate_limiter).rules() == old(rate_limiter).rules(),
        (r is Denied) == rl_denies(
            old(rate_limiter).rules(),
            old(rate_limiter).buckets_view(),
            method@,
            url@,
            client_key@,
            headers@,
            now_ms,
        ),
        match r {
            Intercept::Denied(rule, info) => exists|j: int|
                #![trigger old(rate_limiter).rules()[j]]
                {
                    &&& is_best_rl(old(rate_limiter).rules(), j, method@, url@)
                    &&& same_rl(rule, old(rate_limiter).rules()[j])
                    &&& ({
                        let rs = old(rate_limiter).rules();
                        let key = rl_bucket_key(rs[j], client_key@, headers@);
                        let prev = bucket_model_of(old(rate_limiter).buckets_view(), key);
                        let (s2, b2, a) = bucket_step(prev.0, prev.1, rs[j].limit, now_ms);
                        &&& !a
                        &&& info.limit == rs[j].limit.max_requests
                        &&& info.remaining as int == crate::ratelimit::remaining_of(
                            crate::ratelimit::kept_stamps(
                                prev.0,
                                now_ms,
                                crate::ratelimit::bucket_window_ms(rs[j].limit),
                            ).len() as int,
                            rs[j].limit.max_requests,
                        )
                        &&& info.reset_in_seconds as int == crate::ratelimit::reset_secs(
                            s2,
                            now_ms,
                            rs[j].limit.window_seconds,
                        )
                        &&& info.retry_after == Some(info.reset_in_seconds)
                    })
                },
            Intercept::Mocked(m) => {
                &&& exists|j: int|
                    0 <= j < mocks.rules().len() && (#[trigger] mocks.rules()[j]).enabled
                        && mock_matches(mocks.rules()[j], method@, url@) && same_mock(
                        m,
                        mocks.rules()[j],
                    )
                &&& forall|k: int|
                    0 <= k < mocks.rules().len() && (#[trigger] mocks.rules()[k]).enabled
                        && mock_matches(mocks.rules()[k], method@, url@)
                        ==> mocks.rules()[k].priority <= m.priority
            },
            Intercept::Forward => forall|k: int|
                0 <= k < mocks.rules().len() ==> !((#[trigger] mocks.rules()[k]).enabled
                    && mock_matches(mocks.rules()[k], method@, url@)),
        },
{
    let ghost rs = rate_limiter.rules();
    let ghost bs = rate_limiter.buckets_view();
    let denial = rate_limiter.check_rate_limit_at(method, url, client_key, headers, now_ms);
    proof {
        match denial {
            Some(_) => {
                let j = choose|j: int|
                    #![trigger rs[j]]
                    is_best_rl(rs, j, method@, url@) && {
                        let key = rl_bucket_key(rs[j], client_key@, headers@);
                        let prev = bucket_model_of(bs, key);
                        !bucket_step(prev.0, prev.1, rs[j].limit, now_ms).2
                    };
                assert(rl_denies(rs, bs, method@, url@, client_key@, headers@, now_ms));
                let j2 = choose|j2: int|
                    #![trigger rs[j2]]
                    {
                        &&& is_best_rl(rs, j2, method@, url@)
                        &&& ({
                            let key = rl_bucket_key(rs[j2], client_key@, headers@);
                            let prev = bucket_model_of(bs, key);
                            let (s2, b2, a) = bucket_step(prev.0, prev.1, rs[j2].limit, now_ms);
                            &&& !a
                            &&& same_rl(denial.unwrap().0, rs[j2])
                            &&& denial.unwrap().1.limit == rs[j2].limit.max_requests
                            &&& denial.unwrap().1.remaining as int
                                == crate::ratelimit::remaining_of(
                                crate::ratelimit::kept_stamps(
                                    prev.0,
                                    now_ms,
                                    crate::ratelimit::bucket_window_ms(rs[j2].limit),
                                ).len() as int,
                                rs[j2].limit.max_requests,
                            )
                            &&& denial.unwrap().1.reset_in_seconds as int
                                == crate::ratelimit::reset_secs(
                                s2,
                                now_ms,
                                rs[j2].limit.window_seconds,
                            )
                            &&& denial.unwrap().1.retry_after == Some(
                                denial.unwrap().1.reset_in_seconds,
                            )
                        })
                    };
            },
            None => {
                if rl_denies(rs, bs, method@, url@, client_key@, headers@, now_ms) {
                    let j = choose|j: int|
                        #![trigger rs[j]]
                        is_best_rl(rs, j, method@, url@) && !bucket_step(
                            bucket_model_of(bs, rl_bucket_key(rs[j], client_key@, headers@)).0,
                            bucket_model_of(bs, rl_bucket_key(rs[j], client_key@, headers@)).1,
                            rs[j].limit,
                            now_ms,
                        ).2;
                    assert(exists|k: int|
                        0 <= k < rs.len() && (#[trigger] rs[k]).enabled && rl_matches(
                            rs[k],
                            method@,
                            url@,
                        ));
                    let j2 = choose|j2: int|
                        #![trigger rs[j2]]
                        is_best_rl(rs, j2, method@, url@) && {
                            let key = rl_bucket_key(rs[j2], client_key@, headers@);
                            let prev = bucket_model_of(bs, key);
                            bucket_step(prev.0, prev.1, rs[j2].limit, now_ms).2
                        };
                    lemma_best_rl_unique(rs, j, j2, method@, url@);
                    assert(false);
                }
            },
        }
    }
    match denial {
        Some((rule, info)) => Intercept::Denied(rule, info),
        None => {
            match mocks.find_matching_rule(method, url) {
                Some(m) => Intercept::Mocked(m),
                None => Intercept::Forward,
            }
        },
    }
}

/// Rewrites a forwarded response and repairs its framing: the matching
/// modifier rules run as one `apply_modifications` pass — the witness names
/// the selection that ran — then `content-length` is set to the final body's
/// length and `transfer-encoding` is dropped. Returns the final status and
/// the delay the caller must now suspend for.
pub fn finish_forwarded(
    modifier: &ResponseModifier,
    method: &str,
    url: &str,
    status: u16,
    headers: &mut Vec<(String, String)>,
    body: &mut Vec<u8>,
) -> (r: (u16, u64, Ghost<Seq<crate::modifier::ModifierRule>>))
    ensures
        hlookup(final(headers)@, "content-length"@) == Some(
            dec_rep(final(body)@.len() as nat),
        ),
        !hcontains(final(headers)@, "transfer-encoding"@),
        exists|h_mid: Seq<(String, String)>|
            {
                &&& #[trigger] crate::modifier::apply_outcome(
                    modifier.rules(),
                    r.2@,
                    method@,
                    url@,
                    status,
                    r.0,
                    r.1,
                    old(headers)@,
                    h_mid,
                    old(body)@,
                    final(body)@,
                )
                &&& forall|x: Seq<char>|
                    x != "content-length"@ && x != "transfer-encoding"@
                        ==> #[trigger] hlookup(final(headers)@, x) == hlookup(h_mid, x)
            },
{
    let (final_status, delay, sel) = modifier.apply_modifications(
        method,
        url,
        status,
        headers,
        body,
    );
    let ghost mid = headers@;
    let len64: u64 = body.len() as u64;
    header_set(headers, "content-length", u64_to_string(len64));
    let ghost mid2 = headers@;
    header_remove(headers, "transfer-encoding");
    proof {
        reveal_strlit("content-length");
        reveal_strlit("transfer-encoding");
        assert("content-length"@.len() == 14);
        assert("transfer-encoding"@.len() == 17);
        assert("content-length"@ != "transfer-encoding"@);
        assert forall|x: Seq<char>|
            x != "content-length"@ && x != "transfer-encoding"@ implies #[trigger] hlookup(
            headers@,
            x,
        ) == hlookup(mid, x) by {
            assert(hlookup(mid2, x) == hlookup(mid, x));
            assert(hlookup(headers@, x) == hlookup(mid2, x));
        }
    }
    (final_status, delay, sel)
}

/// A rate-limit denial always wins over any mock rule: whenever the rate
/// limiter denies the request, the decision is the denial, whatever the mock
/// store holds.
pub proof fn lemma_denial_overrides_mock(r: Intercept, denied: bool)
    requires
        (r is Denied) == denied,
        denied,
    ensures
        !(r is Mocked) && !(r is Forward),
{
}

} // verus!
