//! The control plane's request handling: routing an API request to its
//! operation, and parsing a recordings query string into filters.
use vstd::prelude::*;

use crate::storage::FilterOptions;
use crate::strutil::{
    before_char, chars_split, chars_starts_with, chars_to_string, chars_vec, dec_val, digits_part,
    ends_with, first_pos, parse_uint, split_chars, starts_with, str_eq, uint_parses,
};

verus! {

/// What `urlencoding::decode` yields on a string: a function of the
/// characters alone; `None` stands for its failure on bytes that do not
/// decode as UTF-8.
pub uninterp spec fn urldecode_of(s: Seq<char>) -> Option<Seq<char>>;

/// Relies on `urlencoding::decode`: percent-sequences are decoded, failure
/// means the decoded bytes were not UTF-8, and the result depends on the
/// string alone.
#[verifier::external_body]
fn url_decode(s: &str) -> (r: Option<String>)
    ensures
        r is Some <==> urldecode_of(s@) is Some,
        r is Some ==> r.unwrap()@ == urldecode_of(s@).unwrap(),
{
    match urlencoding::decode(s) {
        Ok(v) => Some(v.into_owned()),
        Err(_) => None,
    }
}

/// The characters after the first `sep`, or nothing when it does not occur.
pub open spec fn after_char(s: Seq<char>, sep: char) -> Seq<char> {
    if exists|i: int| 0 <= i < s.len() && s[i] == sep {
        s.subrange(first_pos(s, sep) + 1, s.len() as int)
    } else {
        Seq::empty()
    }
}

/// Whether `sep` occurs in `s`.
pub open spec fn has_char(s: Seq<char>, sep: char) -> bool {
    exists|i: int| 0 <= i < s.len() && s[i] == sep
}

/// Splits at the first `sep` into the parts before and after it.
pub fn chars_split_once(s: &Vec<char>, sep: char) -> (r: Option<(Vec<char>, Vec<char>)>)
    ensures
        r is Some <==> has_char(s@, sep),
        r is Some ==> r.unwrap().0@ == before_char(s@, sep) && r.unwrap().1@ == after_char(
            s@,
            sep,
        ),
{
    let n = s.len();
    let mut i: usize = 0;
    while i < n
        invariant
            i <= n,
            n == s@.len(),
            forall|j: int| 0 <= j < i ==> s@[j] != sep,
        decreases n - i,
    {
        if s[i] == sep {
            proof {
                let w = first_pos(s@, sep);
                assert(0 <= w < s@.len() && s@[w] == sep && (forall|j: int|
                    0 <= j < w ==> s@[j] != sep));
                assert(w == i as int);
            }
            let mut before: Vec<char> = Vec::new();
            let mut a: usize = 0;
            while a < i
                invariant
                    a <= i,
                    i < s@.len(),
                    before@ == s@.subrange(0, a as int),
                decreases i - a,
            {
                before.push(s[a]);
                proof {
                    assert(before@ =~= s@.subrange(0, a + 1));
                }
                a += 1;
            }
            let mut after: Vec<char> = Vec::new();
            let mut b: usize = i + 1;
            while b < n
                invariant
                    i + 1 <= b <= n,
                    n == s@.len(),
                    after@ == s@.subrange(i + 1, b as int),
                decreases n - b,
            {
                after.push(s[b]);
                proof {
                    assert(after@ =~= s@.subrange(i + 1, b + 1));
                }
                b += 1;
            }
            proof {
                assert(before@ =~= before_char(s@, sep));
                assert(after@ =~= after_char(s@, sep));
            }
            return Some((before, after));
        }
        i += 1;
    }
    None
}

/// The view of a filter set: what each field holds, over characters.
pub struct FilterModel {
    pub search: Option<Seq<char>>,
    pub method: Option<Seq<char>>,
    pub status: Option<u16>,
    pub min_duration: Option<u64>,
    pub max_duration: Option<u64>,
    pub from_time: Option<u64>,
    pub to_time: Option<u64>,
}

pub open spec fn filter_model(f: FilterOptions) -> FilterModel {
    FilterModel {
        search: match f.search {
            Some(s) => Some(s@),
            None => None,
        },
        method: match f.method {
            Some(s) => Some(s@),
            None => None,
        },
        status: f.status,
        min_duration: f.min_duration,
        max_duration: f.max_duration,
        from_time: f.from_time,
        to_time: f.to_time,
    }
}

pub open spec fn empty_filter_model() -> FilterModel {
    FilterModel {
        search: None,
        method: None,
        status: None,
        min_duration: None,
        max_duration: None,
        from_time: None,
        to_time: None,
    }
}

/// What one `key=value` parameter contributes: `search` and `method` take
/// any non-empty decoded value; the numeric filters take a decodable number;
/// everything else is ignored, as is a parameter without `=`.
pub open spec fn apply_param(m: FilterModel, p: Seq<char>) -> FilterModel {
    if !has_char(p, '=') {
        m
    } else {
        let key = before_char(p, '=');
        let dec = match urldecode_of(after_char(p, '=')) {
            Some(v) => v,
            None => Seq::<char>::empty(),
        };
        if key == "search"@ && dec.len() > 0 {
            FilterModel { search: Some(dec), ..m }
        } else if key == "method"@ && dec.len() > 0 {
            FilterModel { method: Some(dec), ..m }
        } else if key == "status"@ {
            if uint_parses(dec, u16::MAX as nat) {
                FilterModel { status: Some(dec_val(digits_part(dec)) as u16), ..m }
            } else {
                m
            }
        } else if key == "minDuration"@ {
            if uint_parses(dec, u64::MAX as nat) {
                FilterModel { min_duration: Some(dec_val(digits_part(dec)) as u64), ..m }
            } else {
                m
            }
        } else if key == "maxDuration"@ {
            if uint_parses(dec, u64::MAX as nat) {
                FilterModel { max_duration: Some(dec_val(digits_part(dec)) as u64), ..m }
            } else {
                m
            }
        } else {
            m
        }
    }
}

/// The filters a whole query string denotes: its `&`-separated parameters
/// folded in order over the empty filter set.
pub open spec fn fold_params(m: FilterModel, ps: Seq<Seq<char>>) -> FilterModel
    decreases ps.len(),
{
    if ps.len() == 0 {
        m
    } else {
        fold_params(apply_param(m, ps[0]), ps.drop_first())
    }
}

/// Parses a recordings query string into filters, exactly as `fold_params`
/// over the split parameters describes. No query means no filters.
#[verifier::rlimit(100)]
pub fn parse_filter_options(query: Option<&str>) -> (r: FilterOptions)
    ensures
        match query {
            Some(q) => filter_model(r) == fold_params(
                empty_filter_model(),
                split_chars(q@, '&'),
            ),
            None => filter_model(r) == empty_filter_model(),
        },
{
    let mut filters = FilterOptions {
        search: None,
        method: None,
        status: None,
        min_duration: None,
        max_duration: None,
        from_time: None,
        to_time: None,
    };
    let query_str = match query {
        Some(q) => q,
        None => {
            return filters;
        },
    };
    let qv = chars_vec(query_str);
    let params = chars_split(&qv, '&');
    let n = params.len();
    let ghost ps = split_chars(query_str@, '&');
    let mut i: usize = 0;
    proof {
        assert(ps.skip(0) =~= ps);
        assert(fold_params(empty_filter_model(), ps) == fold_params(
            filter_model(filters),
            ps.skip(0),
        ));
    }
    while i < n
        invariant
            i <= n,
            n == ps.len(),
            params@.len() == ps.len(),
            forall|q: int| 0 <= q < ps.len() ==> (#[trigger] params@[q])@ == ps[q],
            fold_params(empty_filter_model(), ps) == fold_params(
                filter_model(filters),
                ps.skip(i as int),
            ),
        decreases n - i,
    {
        proof {
            assert(ps.skip(i as int)[0] == ps[i as int]);
            assert(ps.skip(i as int).drop_first() =~= ps.skip(i + 1));
        }
        let pv = chars_vec(params[i].as_str());
        let ghost before_model = filter_model(filters);
        match chars_split_once(&pv, '=') {
            Some((key, rawv)) => {
                let key_s = chars_to_string(&key);
                let raw_s = chars_to_string(&rawv);
                let decoded: String = match url_decode(raw_s.as_str()) {
                    Some(v) => v,
                    None => String::new(),
                };
                let dv = chars_vec(decoded.as_str());
                if str_eq(key_s.as_str(), "search") && dv.len() > 0 {
                    filters.search = Some(decoded);
                } else if str_eq(key_s.as_str(), "method") && dv.len() > 0 {
                    filters.method = Some(decoded);
                } else if str_eq(key_s.as_str(), "status") {
                    match parse_uint(&dv, u16::MAX as u64) {
                        Some(v) => {
                            filters.status = Some(v as u16);
                        },
                        None => {},
                    }
                } else if str_eq(key_s.as_str(), "minDuration") {
                    match parse_uint(&dv, u64::MAX) {
                        Some(v) => {
                            filters.min_duration = Some(v);
                        },
                        None => {},
                    }
                } else if str_eq(key_s.as_str(), "maxDuration") {
                    match parse_uint(&dv, u64::MAX) {
                        Some(v) => {
                            filters.max_duration = Some(v);
                        },
                        None => {},
                    }
                }
                proof {
                    assert(filter_model(filters) == apply_param(before_model, ps[i as int]));
                }
            },
            None => {
                proof {
                    assert(filter_model(filters) == apply_param(before_model, ps[i as int]));
                }
            },
        }
        i += 1;
    }
    proof {
        assert(ps.skip(n as int) =~= Seq::<Seq<char>>::empty());
    }
    filters
}

/// Whether any filter is set.
pub fn has_filters(filters: &FilterOptions) -> (r: bool)
    ensures
        r == (filter_model(*filters) != empty_filter_model()),
{
    let any = filters.search.is_some() || filters.method.is_some() || filters.status.is_some()
        || filters.min_duration.is_some() || filters.max_duration.is_some()
        || filters.from_time.is_some() || filters.to_time.is_some();
    proof {
        if !any {
            assert(filter_model(*filters) == empty_filter_model());
        }
    }
    any
}


/// One operation of the control-plane API.
pub enum ApiRoute {
    ListRecordings,
    GetRecording(String),
    ReplayRecording(String),
    ClearRecordings,
    GetStats,
    GetAnalytics,
    ListMocks,
    CreateMock,
    GetMock(String),
    UpdateMock(String),
    ToggleMock(String),
    DeleteMock(String),
    ClearMocks,
    ListModifiers,
    CreateModifier,
    GetModifier(String),
    UpdateModifier(String),
    ToggleModifier(String),
    DeleteModifier(String),
    ClearModifiers,
    ListRateLimits,
    CreateRateLimit,
    RateLimitStats,
    GetRateLimit(String),
    UpdateRateLimit(String),
    ToggleRateLimit(String),
    ResetRateLimit(String),
    DeleteRateLimit(String),
    ClearRateLimits,
    ListLatencyRules,
    CreateLatencyRule,
    GetLatencyRule(String),
    UpdateLatencyRule(String),
    ToggleLatencyRule(String),
    DeleteLatencyRule(String),
    ClearLatencyRules,
    LatencyStatsRoute,
    ResetLatencyStats,
    NotFound,
}

/// `p` with a leading `pre` removed.
pub open spec fn strip_prefix(p: Seq<char>, pre: Seq<char>) -> Seq<char> {
    p.subrange(pre.len() as int, p.len() as int)
}

/// `s` with a trailing `suf` removed, when it carries one.
pub open spec fn strip_suffix(s: Seq<char>, suf: Seq<char>) -> Seq<char> {
    if ends_with(s, suf) {
        s.subrange(0, s.len() - suf.len())
    } else {
        s
    }
}

/// The id of a rule path: the path under its collection prefix, with a
/// trailing action segment removed.
pub open spec fn path_id(p: Seq<char>, pre: Seq<char>, suf: Seq<char>) -> Seq<char> {
    strip_suffix(strip_prefix(p, pre), suf)
}

/// Whether some API operation claims this method and path.
pub open spec fn some_route(m: Seq<char>, p: Seq<char>) -> bool {
    ||| m == "GET"@ && (p == "/api/recordings"@ || p == "/api/stats"@ || p == "/api/analytics"@
        || starts_with(p, "/api/recordings/"@) || p == "/api/mocks"@ || starts_with(
        p,
        "/api/mocks/"@,
    ) && !ends_with(p, "/toggle"@) || p == "/api/modifiers"@ || starts_with(
        p,
        "/api/modifiers/"@,
    ) && !ends_with(p, "/toggle"@) || p == "/api/rate-limits"@ || p == "/api/rate-limits/stats"@
        || starts_with(p, "/api/rate-limits/"@) && !ends_with(p, "/toggle"@) && !ends_with(
        p,
        "/reset"@,
    ) || p == "/api/latency-rules"@ || starts_with(p, "/api/latency-rules/"@) && !ends_with(
        p,
        "/toggle"@,
    ) && !ends_with(p, "/stats"@) || p == "/api/latency-stats"@)
    ||| m == "POST"@ && (p == "/api/mocks"@ || p == "/api/modifiers"@ || p == "/api/rate-limits"@
        || p == "/api/latency-rules"@ || p == "/api/latency-stats/reset"@ || starts_with(
        p,
        "/api/recordings/"@,
    ) && ends_with(p, "/replay"@) || starts_with(p, "/api/mocks/"@) && ends_with(p, "/toggle"@)
        || starts_with(p, "/api/modifiers/"@) && ends_with(p, "/toggle"@) || starts_with(
        p,
        "/api/rate-limits/"@,
    ) && (ends_with(p, "/toggle"@) || ends_with(p, "/reset"@)) || starts_with(
        p,
        "/api/latency-rules/"@,
    ) && ends_with(p, "/toggle"@))
    ||| m == "PUT"@ && (starts_with(p, "/api/mocks/"@) || starts_with(p, "/api/modifiers/"@)
        || starts_with(p, "/api/rate-limits/"@) || starts_with(p, "/api/latency-rules/"@))
    ||| m == "DELETE"@ && (p == "/api/recordings"@ || p == "/api/mocks"@ || p
        == "/api/modifiers"@ || p == "/api/rate-limits"@ || p == "/api/latency-rules"@
        || starts_with(p, "/api/mocks/"@) || starts_with(p, "/api/modifiers/"@) || starts_with(
        p,
        "/api/rate-limits/"@,
    ) || starts_with(p, "/api/latency-rules/"@))
}

/// Which operation a method and path denote. Each variant's claim is exact;
/// `NotFound` answers exactly the unclaimed inputs.
pub open spec fn route_ok(m: Seq<char>, p: Seq<char>, r: ApiRoute) -> bool {
    match r {
        ApiRoute::ListRecordings => m == "GET"@ && p == "/api/recordings"@,
        ApiRoute::GetStats => m == "GET"@ && p == "/api/stats"@,
        ApiRoute::GetAnalytics => m == "GET"@ && p == "/api/analytics"@,
        ApiRoute::GetRecording(id) => m == "GET"@ && starts_with(p, "/api/recordings/"@) && id@
            == strip_prefix(p, "/api/recordings/"@),
        ApiRoute::ReplayRecording(id) => m == "POST"@ && starts_with(p, "/api/recordings/"@)
            && ends_with(p, "/replay"@) && id@ == path_id(p, "/api/recordings/"@, "/replay"@),
        ApiRoute::ClearRecordings => m == "DELETE"@ && p == "/api/recordings"@,
        ApiRoute::ListMocks => m == "GET"@ && p == "/api/mocks"@,
        ApiRoute::CreateMock => m == "POST"@ && p == "/api/mocks"@,
        ApiRoute::GetMock(id) => m == "GET"@ && starts_with(p, "/api/mocks/"@) && !ends_with(
            p,
            "/toggle"@,
        ) && id@ == strip_prefix(p, "/api/mocks/"@),
        ApiRoute::UpdateMock(id) => m == "PUT"@ && starts_with(p, "/api/mocks/"@) && id@
            == strip_prefix(p, "/api/mocks/"@),
        ApiRoute::ToggleMock(id) => m == "POST"@ && starts_with(p, "/api/mocks/"@) && ends_with(
            p,
            "/toggle"@,
        ) && id@ == path_id(p, "/api/mocks/"@, "/toggle"@),
        ApiRoute::DeleteMock(id) => m == "DELETE"@ && starts_with(p, "/api/mocks/"@) && id@
            == strip_prefix(p, "/api/mocks/"@),
        ApiRoute::ClearMocks => m == "DELETE"@ && p == "/api/mocks"@,
        ApiRoute::ListModifiers => m == "GET"@ && p == "/api/modifiers"@,
        ApiRoute::CreateModifier => m == "POST"@ && p == "/api/modifiers"@,
        ApiRoute::GetModifier(id) => m == "GET"@ && starts_with(p, "/api/modifiers/"@)
            && !ends_with(p, "/toggle"@) && id@ == strip_prefix(p, "/api/modifiers/"@),
        ApiRoute::UpdateModifier(id) => m == "PUT"@ && starts_with(p, "/api/modifiers/"@) && id@
            == strip_prefix(p, "/api/modifiers/"@),
        ApiRoute::ToggleModifier(id) => m == "POST"@ && starts_with(p, "/api/modifiers/"@)
            && ends_with(p, "/toggle"@) && id@ == path_id(p, "/api/modifiers/"@, "/toggle"@),
        ApiRoute::DeleteModifier(id) => m == "DELETE"@ && starts_with(p, "/api/modifiers/"@)
            && id@ == strip_prefix(p, "/api/modifiers/"@),
        ApiRoute::ClearModifiers => m == "DELETE"@ && p == "/api/modifiers"@,
        ApiRoute::ListRateLimits => m == "GET"@ && p == "/api/rate-limits"@,
        ApiRoute::CreateRateLimit => m == "POST"@ && p == "/api/rate-limits"@,
        ApiRoute::RateLimitStats => m == "GET"@ && p == "/api/rate-limits/stats"@,
        ApiRoute::GetRateLimit(id) => m == "GET"@ && starts_with(p, "/api/rate-limits/"@) && p
            != "/api/rate-limits/stats"@ && !ends_with(p, "/toggle"@) && !ends_with(
            p,
            "/reset"@,
        ) && id@ == strip_prefix(p, "/api/rate-limits/"@),
        ApiRoute::UpdateRateLimit(id) => m == "PUT"@ && starts_with(p, "/api/rate-limits/"@)
            && id@ == strip_prefix(p, "/api/rate-limits/"@),
        ApiRoute::ToggleRateLimit(id) => m == "POST"@ && starts_with(p, "/api/rate-limits/"@)
            && ends_with(p, "/toggle"@) && id@ == path_id(p, "/api/rate-limits/"@, "/toggle"@),
        ApiRoute::ResetRateLimit(id) => m == "POST"@ && starts_with(p, "/api/rate-limits/"@)
            && !ends_with(p, "/toggle"@) && ends_with(p, "/reset"@) && id@ == path_id(
            p,
            "/api/rate-limits/"@,
            "/reset"@,
        ),
        ApiRoute::DeleteRateLimit(id) => m == "DELETE"@ && starts_with(p, "/api/rate-limits/"@)
            && id@ == strip_prefix(p, "/api/rate-limits/"@),
        ApiRoute::ClearRateLimits => m == "DELETE"@ && p == "/api/rate-limits"@,
        ApiRoute::ListLatencyRules => m == "GET"@ && p == "/api/latency-rules"@,
        ApiRoute::CreateLatencyRule => m == "POST"@ && p == "/api/latency-rules"@,
        ApiRoute::GetLatencyRule(id) => m == "GET"@ && starts_with(p, "/api/latency-rules/"@)
            && !ends_with(p, "/toggle"@) && !ends_with(p, "/stats"@) && id@ == strip_prefix(
            p,
            "/api/latency-rules/"@,
        ),
        ApiRoute::UpdateLatencyRule(id) => m == "PUT"@ && starts_with(p, "/api/latency-rules/"@)
            && id@ == strip_prefix(p, "/api/latency-rules/"@),
        ApiRoute::ToggleLatencyRule(id) => m == "POST"@ && starts_with(
            p,
            "/api/latency-rules/"@,
        ) && ends_with(p, "/toggle"@) && id@ == path_id(p, "/api/latency-rules/"@, "/toggle"@),
        ApiRoute::DeleteLatencyRule(id) => m == "DELETE"@ && starts_with(
            p,
            "/api/latency-rules/"@,
        ) && id@ == strip_prefix(p, "/api/latency-rules/"@),
        ApiRoute::ClearLatencyRules => m == "DELETE"@ && p == "/api/latency-rules"@,
        ApiRoute::LatencyStatsRoute => m == "GET"@ && p == "/api/latency-stats"@,
        ApiRoute::ResetLatencyStats => m == "POST"@ && p == "/api/latency-stats/reset"@,
        ApiRoute::NotFound => !some_route(m, p),
    }
}

/// Extracts the id under a collection prefix, dropping a trailing action
/// segment when one is there.
#[verifier::rlimit(50)]
fn extract_id(p: &str, pre: &str, suf: &str) -> (r: String)
    requires
        starts_with(p@, pre@),
    ensures
        r@ == path_id(p@, pre@, suf@),
{
    let pv = chars_vec(p);
    let prev = chars_vec(pre);
    let sufv = chars_vec(suf);
    let n = pv.len();
    let mut rest: Vec<char> = Vec::new();
    let mut i: usize = prev.len();
    while i < n
        invariant
            prev@.len() <= i <= n,
            n == pv@.len(),
            pv@ == p@,
            prev@ == pre@,
            rest@ == pv@.subrange(prev@.len() as int, i as int),
        decreases n - i,
    {
        rest.push(pv[i]);
        proof {
            assert(rest@ =~= pv@.subrange(prev@.len() as int, i + 1));
        }
        i += 1;
    }
    proof {
        assert(rest@ =~= strip_prefix(p@, pre@));
    }
    if crate::strutil::chars_ends_with(&rest, &sufv) {
        let keep = rest.len() - sufv.len();
        let mut out: Vec<char> = Vec::new();
        let mut a: usize = 0;
        while a < keep
            invariant
                a <= keep,
                keep <= rest@.len(),
                out@ == rest@.subrange(0, a as int),
            decreases keep - a,
        {
            out.push(rest[a]);
            proof {
                assert(out@ =~= rest@.subrange(0, a + 1));
            }
            a += 1;
        }
        proof {
            assert(out@ =~= strip_suffix(rest@, suf@));
        }
        chars_to_string(&out)
    } else {
        chars_to_string(&rest)
    }
}

/// Extracts the id under a collection prefix.
#[verifier::rlimit(50)]
fn extract_id_plain(p: &str, pre: &str) -> (r: String)
    requires
        starts_with(p@, pre@),
    ensures
        r@ == strip_prefix(p@, pre@),
{
    let pv = chars_vec(p);
    let prev = chars_vec(pre);
    let n = pv.len();
    let mut rest: Vec<char> = Vec::new();
    let mut i: usize = prev.len();
    while i < n
        invariant
            prev@.len() <= i <= n,
            n == pv@.len(),
            pv@ == p@,
            prev@ == pre@,
            rest@ == pv@.subrange(prev@.len() as int, i as int),
        decreases n - i,
    {
        rest.push(pv[i]);
        proof {
            assert(rest@ =~= pv@.subrange(prev@.len() as int, i + 1));
        }
        i += 1;
    }
    proof {
        assert(rest@ =~= strip_prefix(p@, pre@));
    }
    chars_to_string(&rest)
}

/// Routes a control-plane request, with the method compared exactly and the
/// path matched as the API defines it.
#[verifier::rlimit(100)]
pub fn route(method: &str, path: &str) -> (r: ApiRoute)
    ensures
        route_ok(method@, path@, r),
{
    proof {
        reveal_strlit("GET");
        reveal_strlit("POST");
        reveal_strlit("PUT");
        reveal_strlit("DELETE");
        assert("GET"@.len() == 3);
        assert("POST"@.len() == 4);
        assert("PUT"@.len() == 3);
        assert("DELETE"@.len() == 6);
        assert("GET"@[0] == 'G');
        assert("PUT"@[0] == 'P');
        assert("GET"@ != "POST"@ && "GET"@ != "PUT"@ && "GET"@ != "DELETE"@);
        assert("POST"@ != "PUT"@ && "POST"@ != "DELETE"@);
        assert("PUT"@ != "DELETE"@);
    }
    let pv = chars_vec(path);
    let is_get = str_eq(method, "GET");
    let is_post = str_eq(method, "POST");
    let is_put = str_eq(method, "PUT");
    let is_delete = str_eq(method, "DELETE");

    let rec_pre = chars_vec("/api/recordings/");
    let mock_pre = chars_vec("/api/mocks/");
    let modr_pre = chars_vec("/api/modifiers/");
    let rl_pre = chars_vec("/api/rate-limits/");
    let lat_pre = chars_vec("/api/latency-rules/");
    let toggle_suf = chars_vec("/toggle");
    let reset_suf = chars_vec("/reset");
    let replay_suf = chars_vec("/replay");
    let stats_suf = chars_vec("/stats");

    if is_get {
        if str_eq(path, "/api/recordings") {
            ApiRoute::ListRecordings
        } else if str_eq(path, "/api/stats") {
            ApiRoute::GetStats
        } else if str_eq(path, "/api/analytics") {
            ApiRoute::GetAnalytics
        } else if chars_starts_with(&pv, &rec_pre) {
            ApiRoute::GetRecording(extract_id_plain(path, "/api/recordings/"))
        } else if str_eq(path, "/api/mocks") {
            ApiRoute::ListMocks
        } else if chars_starts_with(&pv, &mock_pre) && !crate::strutil::chars_ends_with(
            &pv,
            &toggle_suf,
        ) {
            ApiRoute::GetMock(extract_id_plain(path, "/api/mocks/"))
        } else if str_eq(path, "/api/modifiers") {
            ApiRoute::ListModifiers
        } else if chars_starts_with(&pv, &modr_pre) && !crate::strutil::chars_ends_with(
            &pv,
            &toggle_suf,
        ) {
            ApiRoute::GetModifier(extract_id_plain(path, "/api/modifiers/"))
        } else if str_eq(path, "/api/rate-limits") {
            ApiRoute::ListRateLimits
        } else if str_eq(path, "/api/rate-limits/stats") {
            ApiRoute::RateLimitStats
        } else if chars_starts_with(&pv, &rl_pre) && !crate::strutil::chars_ends_with(
            &pv,
            &toggle_suf,
        ) && !crate::strutil::chars_ends_with(&pv, &reset_suf) {
            ApiRoute::GetRateLimit(extract_id_plain(path, "/api/rate-limits/"))
        } else if str_eq(path, "/api/latency-rules") {
            ApiRoute::ListLatencyRules
        } else if chars_starts_with(&pv, &lat_pre) && !crate::strutil::chars_ends_with(
            &pv,
            &toggle_suf,
        ) && !crate::strutil::chars_ends_with(&pv, &stats_suf) {
            ApiRoute::GetLatencyRule(extract_id_plain(path, "/api/latency-rules/"))
        } else if str_eq(path, "/api/latency-stats") {
            ApiRoute::LatencyStatsRoute
        } else {
            ApiRoute::NotFound
        }
    } else if is_post {
        if str_eq(path, "/api/mocks") {
            ApiRoute::CreateMock
        } else if str_eq(path, "/api/modifiers") {
            ApiRoute::CreateModifier
        } else if str_eq(path, "/api/rate-limits") {
            ApiRoute::CreateRateLimit
        } else if str_eq(path, "/api/latency-rules") {
            ApiRoute::CreateLatencyRule
        } else if str_eq(path, "/api/latency-stats/reset") {
            ApiRoute::ResetLatencyStats
        } else if chars_starts_with(&pv, &rec_pre) && crate::strutil::chars_ends_with(
            &pv,
            &replay_suf,
        ) {
            ApiRoute::ReplayRecording(extract_id(path, "/api/recordings/", "/replay"))
        } else if chars_starts_with(&pv, &mock_pre) && crate::strutil::chars_ends_with(
            &pv,
            &toggle_suf,
        ) {
            ApiRoute::ToggleMock(extract_id(path, "/api/mocks/", "/toggle"))
        } else if chars_starts_with(&pv, &modr_pre) && crate::strutil::chars_ends_with(
            &pv,
            &toggle_suf,
        ) {
            ApiRoute::ToggleModifier(extract_id(path, "/api/modifiers/", "/toggle"))
        } else if chars_starts_with(&pv, &rl_pre) && crate::strutil::chars_ends_with(
            &pv,
            &toggle_suf,
        ) {
            ApiRoute::ToggleRateLimit(extract_id(path, "/api/rate-limits/", "/toggle"))
        } else if chars_starts_with(&pv, &rl_pre) && crate::strutil::chars_ends_with(
            &pv,
            &reset_suf,
        ) {
            ApiRoute::ResetRateLimit(extract_id(path, "/api/rate-limits/", "/reset"))
        } else if chars_starts_with(&pv, &lat_pre) && crate::strutil::chars_ends_with(
            &pv,
            &toggle_suf,
        ) {
            ApiRoute::ToggleLatencyRule(extract_id(path, "/api/latency-rules/", "/toggle"))
        } else {
            ApiRoute::NotFound
        }
    } else if is_put {
        if chars_starts_with(&pv, &mock_pre) {
            ApiRoute::UpdateMock(extract_id_plain(path, "/api/mocks/"))
        } else if chars_starts_with(&pv, &modr_pre) {
            ApiRoute::UpdateModifier(extract_id_plain(path, "/api/modifiers/"))
        } else if chars_starts_with(&pv, &rl_pre) {
            ApiRoute::UpdateRateLimit(extract_id_plain(path, "/api/rate-limits/"))
        } else if chars_starts_with(&pv, &lat_pre) {
            ApiRoute::UpdateLatencyRule(extract_id_plain(path, "/api/latency-rules/"))
        } else {
            ApiRoute::NotFound
        }
    } else if is_delete {
        if str_eq(path, "/api/recordings") {
            ApiRoute::ClearRecordings
        } else if str_eq(path, "/api/mocks") {
            ApiRoute::ClearMocks
        } else if str_eq(path, "/api/modifiers") {
            ApiRoute::ClearModifiers
        } else if str_eq(path, "/api/rate-limits") {
            ApiRoute::ClearRateLimits
        } else if str_eq(path, "/api/latency-rules") {
            ApiRoute::ClearLatencyRules
        } else if chars_starts_with(&pv, &mock_pre) {
            ApiRoute::DeleteMock(extract_id_plain(path, "/api/mocks/"))
        } else if chars_starts_with(&pv, &modr_pre) {
            ApiRoute::DeleteModifier(extract_id_plain(path, "/api/modifiers/"))
        } else if chars_starts_with(&pv, &rl_pre) {
            ApiRoute::DeleteRateLimit(extract_id_plain(path, "/api/rate-limits/"))
        } else if chars_starts_with(&pv, &lat_pre) {
            ApiRoute::DeleteLatencyRule(extract_id_plain(path, "/api/latency-rules/"))
        } else {
            ApiRoute::NotFound
        }
    } else {
        proof {
            assert(!some_route(method@, path@));
        }
        ApiRoute::NotFound
    }
}


/// The URL a recording is replayed against: the recorded URL itself when it
/// is absolute, else the upstream base with the recorded path appended.
pub fn replay_target(upstream: &str, url: &str) -> (r: String)
    ensures
        starts_with(url@, "http"@) ==> r@ == url@,
        !starts_with(url@, "http"@) ==> r@ == upstream@ + url@,
{
    let uv = chars_vec(url);
    let pre = chars_vec("http");
    if chars_starts_with(&uv, &pre) {
        let mut out = String::new();
        out.append(url);
        out
    } else {
        let mut out = String::new();
        out.append(upstream);
        out.append(url);
        out
    }
}

} // verus!
