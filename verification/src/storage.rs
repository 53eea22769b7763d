//! The in-memory recording store: every transaction the proxy handles is
//! kept as a `RecordedRequest`, completed in place when its response is
//! known, and served back through filters, statistics and analytics.
use vstd::prelude::*;

use crate::ids::{fresh_id, now_millis};
use crate::strutil::{chars_contains, chars_vec, has_substring, str_eq, utf8_to_string};
use vstd::utf8::{decode_utf8, valid_utf8};

verus! {

/// The response half of a captured transaction.
pub struct RecordedResponse {
    pub status: u16,
    pub headers: Vec<(String, String)>,
    pub body: Option<Vec<u8>>,
}

/// One captured transaction. `response` and `duration_ms` are both absent
/// while the transaction is in flight, and both present once it completed.
pub struct RecordedRequest {
    pub id: String,
    pub timestamp: u64,
    pub method: String,
    pub url: String,
    pub headers: Vec<(String, String)>,
    pub body: Option<Vec<u8>>,
    pub response: Option<RecordedResponse>,
    pub duration_ms: Option<u64>,
}

/// The filters a recordings query can combine; absent fields do not filter.
pub struct FilterOptions {
    pub search: Option<String>,
    pub method: Option<String>,
    pub status: Option<u16>,
    pub min_duration: Option<u64>,
    pub max_duration: Option<u64>,
    pub from_time: Option<u64>,
    pub to_time: Option<u64>,
}

/// Counts over the completed recordings.
pub struct RecordingStats {
    pub total: usize,
    pub success: usize,
    pub redirects: usize,
    pub client_errors: usize,
    pub server_errors: usize,
    pub avg_duration_ms: u64,
    pub min_duration_ms: u64,
    pub max_duration_ms: u64,
}

/// Responses that agree field for field.
pub open spec fn same_response(a: RecordedResponse, b: RecordedResponse) -> bool {
    &&& a.status == b.status
    &&& a.headers@ == b.headers@
    &&& match (a.body, b.body) {
        (Some(x), Some(y)) => x@ == y@,
        (None, None) => true,
        _ => false,
    }
}

/// Records that agree field for field.
pub open spec fn same_record(a: RecordedRequest, b: RecordedRequest) -> bool {
    &&& a.id == b.id
    &&& a.timestamp == b.timestamp
    &&& a.method == b.method
    &&& a.url == b.url
    &&& a.headers@ == b.headers@
    &&& match (a.body, b.body) {
        (Some(x), Some(y)) => x@ == y@,
        (None, None) => true,
        _ => false,
    }
    &&& match (a.response, b.response) {
        (Some(x), Some(y)) => same_response(x, y),
        (None, None) => true,
        _ => false,
    }
    &&& a.duration_ms == b.duration_ms
}

/// The record stored under `id`, if any.
pub open spec fn rec_lookup(s: Seq<RecordedRequest>, id: Seq<char>) -> Option<RecordedRequest>
    decreases s.len(),
{
    if s.len() == 0 {
        None
    } else if s[0].id@ == id {
        Some(s[0])
    } else {
        rec_lookup(s.drop_first(), id)
    }
}

/// The lower-case form of a string, as `str::to_lowercase` computes it:
/// a function of the characters alone.
pub uninterp spec fn lower_of(s: Seq<char>) -> Seq<char>;

/// Relies on `str::to_lowercase`: the result depends on the characters
/// alone; an empty string stays empty.
#[verifier::external_body]
pub fn to_lowercase(s: &str) -> (r: String)
    ensures
        r@ == lower_of(s@),
        s@.len() == 0 ==> r@.len() == 0,
{
    s.to_lowercase()
}

/// Whether the decoded, lower-cased text of `b` contains `needle`.
/// A body that is not valid UTF-8 never matches.
pub open spec fn body_search_hits(b: Seq<u8>, needle: Seq<char>) -> bool {
    valid_utf8(b) && has_substring(lower_of(decode_utf8(b)), needle)
}

/// Whether a record passes the filters: a case-insensitive `search` over
/// URL, method and both bodies; exact method; exact status (a response is
/// required); duration bounds (a duration is required); inclusive time
/// bounds.
pub open spec fn filter_accepts(rec: RecordedRequest, f: FilterOptions) -> bool {
    &&& match f.search {
        Some(s) => {
            ||| has_substring(lower_of(rec.url@), lower_of(s@))
            ||| has_substring(lower_of(rec.method@), lower_of(s@))
            ||| match rec.body {
                Some(b) => body_search_hits(b@, lower_of(s@)),
                None => false,
            }
            ||| match rec.response {
                Some(resp) => match resp.body {
                    Some(b) => body_search_hits(b@, lower_of(s@)),
                    None => false,
                },
                None => false,
            }
        },
        None => true,
    }
    &&& match f.method {
        Some(m) => m@.len() == 0 || rec.method@ == m@,
        None => true,
    }
    &&& match f.status {
        Some(st) => match rec.response {
            Some(resp) => resp.status == st,
            None => false,
        },
        None => true,
    }
    &&& match f.min_duration {
        Some(d) => match rec.duration_ms {
            Some(x) => x >= d,
            None => false,
        },
        None => true,
    }
    &&& match f.max_duration {
        Some(d) => match rec.duration_ms {
            Some(x) => x <= d,
            None => false,
        },
        None => true,
    }
    &&& match f.from_time {
        Some(t) => rec.timestamp >= t,
        None => true,
    }
    &&& match f.to_time {
        Some(t) => rec.timestamp <= t,
        None => true,
    }
}

impl RecordedResponse {
    pub fn clone_response(&self) -> (r: Self)
        ensures
            same_response(r, *self),
    {
        RecordedResponse {
            status: self.status,
            headers: crate::headers::clone_headers(&self.headers),
            body: match &self.body {
                Some(b) => Some(crate::strutil::bytes_clone(b)),
                None => None,
            },
        }
    }
}

impl RecordedRequest {
    pub fn clone_record(&self) -> (r: Self)
        ensures
            same_record(r, *self),
    {
        RecordedRequest {
            id: self.id.clone(),
            timestamp: self.timestamp,
            method: self.method.clone(),
            url: self.url.clone(),
            headers: crate::headers::clone_headers(&self.headers),
            body: match &self.body {
                Some(b) => Some(crate::strutil::bytes_clone(b)),
                None => None,
            },
            response: match &self.response {
                Some(resp) => Some(resp.clone_response()),
                None => None,
            },
            duration_ms: self.duration_ms,
        }
    }

    /// Whether this record passes the filters.
    pub fn matches_filters(&self, filters: &FilterOptions) -> (r: bool)
        ensures
            r == filter_accepts(*self, *filters),
    {
        match &filters.search {
            Some(search) => {
                let needle_s = to_lowercase(search.as_str());
                let needle = chars_vec(needle_s.as_str());
                let url_l = to_lowercase(self.url.as_str());
                let uv = chars_vec(url_l.as_str());
                let url_hit = chars_contains(&uv, &needle);
                let method_l = to_lowercase(self.method.as_str());
                let mv = chars_vec(method_l.as_str());
                let method_hit = chars_contains(&mv, &needle);
                let body_hit: bool = match &self.body {
                    Some(b) => match utf8_to_string(b) {
                        Some(text) => {
                            let tl = to_lowercase(text.as_str());
                            let tv = chars_vec(tl.as_str());
                            chars_contains(&tv, &needle)
                        },
                        None => false,
                    },
                    None => false,
                };
                let resp_hit: bool = match &self.response {
                    Some(resp) => match &resp.body {
                        Some(b) => match utf8_to_string(b) {
                            Some(text) => {
                                let tl = to_lowercase(text.as_str());
                                let tv = chars_vec(tl.as_str());
                                chars_contains(&tv, &needle)
                            },
                            None => false,
                        },
                        None => false,
                    },
                    None => false,
                };
                if !(url_hit || method_hit || body_hit || resp_hit) {
                    return false;
                }
            },
            None => {},
        }
        match &filters.method {
            Some(m) => {
                if m.unicode_len() > 0 && !str_eq(self.method.as_str(), m.as_str()) {
                    return false;
                }
            },
            None => {},
        }
        match filters.status {
            Some(st) => {
                match &self.response {
                    Some(resp) => {
                        if resp.status != st {
                            return false;
                        }
                    },
                    None => {
                        return false;
                    },
                }
            },
            None => {},
        }
        match filters.min_duration {
            Some(d) => {
                match self.duration_ms {
                    Some(x) => {
                        if x < d {
                            return false;
                        }
                    },
                    None => {
                        return false;
                    },
                }
            },
            None => {},
        }
        match filters.max_duration {
            Some(d) => {
                match self.duration_ms {
                    Some(x) => {
                        if x > d {
                            return false;
                        }
                    },
                    None => {
                        return false;
                    },
                }
            },
            None => {},
        }
        match filters.from_time {
            Some(t) => {
                if self.timestamp < t {
                    return false;
                }
            },
            None => {},
        }
        match filters.to_time {
            Some(t) => {
                if self.timestamp > t {
                    return false;
                }
            },
            None => {},
        }
        true
    }
}

/// The recording store.
pub struct Storage {
    recordings: Vec<RecordedRequest>,
}

impl Storage {
    /// The records currently held, in insertion order.
    pub closed spec fn recs(&self) -> Seq<RecordedRequest> {
        self.recordings@
    }

    pub fn new() -> (r: Self)
        ensures
            r.recs() == Seq::<RecordedRequest>::empty(),
    {
        Storage { recordings: Vec::new() }
    }

    /// The position of the first record with this id.
    fn rec_index(&self, id: &str) -> (r: Option<usize>)
        ensures
            match r {
                Some(i) => {
                    &&& i < self.recs().len()
                    &&& self.recs()[i as int].id@ == id@
                    &&& forall|q: int| 0 <= q < i ==> (#[trigger] self.recs()[q]).id@ != id@
                    &&& rec_lookup(self.recs(), id@) == Some(self.recs()[i as int])
                },
                None => rec_lookup(self.recs(), id@) is None,
            },
    {
        let n = self.recordings.len();
        let mut i: usize = 0;
        proof {
            assert(self.recs().skip(0) =~= self.recs());
        }
        while i < n
            invariant
                i <= n,
                n == self.recs().len(),
                forall|q: int| 0 <= q < i ==> (#[trigger] self.recs()[q]).id@ != id@,
                rec_lookup(self.recs(), id@) == rec_lookup(self.recs().skip(i as int), id@),
            decreases n - i,
        {
            proof {
                assert(self.recs().skip(i as int)[0] == self.recs()[i as int]);
                assert(self.recs().skip(i as int).drop_first() =~= self.recs().skip(i + 1));
            }
            if str_eq(self.recordings[i].id.as_str(), id) {
                proof {
                    lemma_rec_first(self.recs(), i as int, id@);
                }
                return Some(i);
            }
            i += 1;
        }
        proof {
            assert(self.recs().skip(n as int) =~= Seq::<RecordedRequest>::empty());
        }
        None
    }

    /// An id no stored record bears: a fresh random identifier — lengthened
    /// past every stored id in the vanishing case that the draw collides,
    /// since an id longer than every stored id is new.
    fn fresh_rec_id(&self) -> (r: String)
        ensures
            rec_lookup(self.recs(), r@) is None,
    {
        let mut id = fresh_id();
        if self.rec_index(id.as_str()).is_none() {
            return id;
        }
        let n = self.recordings.len();
        let mut m: usize = 0;
        let mut i: usize = 0;
        while i < n
            invariant
                i <= n,
                n == self.recs().len(),
                forall|j: int| 0 <= j < i ==> (#[trigger] self.recs()[j]).id@.len() <= m,
            decreases n - i,
        {
            let l = self.recordings[i].id.as_str().unicode_len();
            if l > m {
                m = l;
            }
            i += 1;
        }
        proof {
            reveal_strlit("-");
            assert("-"@.len() == 1);
        }
        while id.as_str().unicode_len() <= m
            invariant
                "-"@.len() == 1,
            decreases m + 1 - id@.len(),
        {
            id.append("-");
        }
        proof {
            assert(id@.len() > m);
            assert forall|j: int| 0 <= j < self.recs().len() implies (
            #[trigger] self.recs()[j]).id@ != id@ by {
                assert(self.recs()[j].id@.len() <= m);
            }
            lemma_rec_all_absent(self.recs(), id@);
        }
        id
    }

    /// Stores a record under a fresh id and returns the id: the id differs
    /// from every stored record's, the stored record is the given one with
    /// its id replaced, every other record is untouched, and the store grows
    /// by one.
    pub fn store_request(&mut self, request: RecordedRequest) -> (id: String)
        ensures
            rec_lookup(old(self).recs(), id@) is None,
            ({
                let e = rec_lookup(final(self).recs(), id@);
                &&& e is Some
                &&& e.unwrap().id@ == id@
                &&& e.unwrap().timestamp == request.timestamp
                &&& e.unwrap().method == request.method
                &&& e.unwrap().url == request.url
                &&& e.unwrap().headers == request.headers
                &&& e.unwrap().body == request.body
                &&& e.unwrap().response == request.response
                &&& e.unwrap().duration_ms == request.duration_ms
            }),
            forall|k: Seq<char>|
                k != id@ ==> #[trigger] rec_lookup(final(self).recs(), k) == rec_lookup(
                    old(self).recs(),
                    k,
                ),
            final(self).recs().len() == old(self).recs().len() + 1,
    {
        let mut request = request;
        let id = self.fresh_rec_id();
        request.id = id.clone();
        let ghost prev = self.recs();
        proof {
            lemma_rec_push(prev, request);
        }
        self.recordings.push(request);
        proof {
            assert(self.recs() =~= prev.push(request));
        }
        id
    }

    /// Attaches the response and duration to the record with this id;
    /// does nothing when the id is unknown.
    pub fn update_response(&mut self, id: &str, response: RecordedResponse, duration_ms: u64)
        ensures
            match rec_lookup(old(self).recs(), id@) {
                Some(e) => rec_lookup(final(self).recs(), id@) == Some(
                    RecordedRequest {
                        response: Some(response),
                        duration_ms: Some(duration_ms),
                        ..e
                    },
                ),
                None => final(self).recs() == old(self).recs(),
            },
            forall|k: Seq<char>|
                k != id@ ==> #[trigger] rec_lookup(final(self).recs(), k) == rec_lookup(
                    old(self).recs(),
                    k,
                ),
            final(self).recs().len() == old(self).recs().len(),
    {
        let ghost prev = self.recs();
        match self.rec_index(id) {
            Some(i) => {
                let mut rec = self.recordings.remove(i);
                rec.response = Some(response);
                rec.duration_ms = Some(duration_ms);
                proof {
                    lemma_rec_update(prev, i as int, rec);
                }
                self.recordings.insert(i, rec);
                proof {
                    assert(self.recs() =~= prev.update(i as int, rec));
                }
            },
            None => {},
        }
    }

    /// A copy of the record with this id.
    pub fn get_by_id(&self, id: &str) -> (r: Option<RecordedRequest>)
        ensures
            match r {
                Some(rec) => rec_lookup(self.recs(), id@) is Some && same_record(
                    rec,
                    rec_lookup(self.recs(), id@).unwrap(),
                ),
                None => rec_lookup(self.recs(), id@) is None,
            },
    {
        match self.rec_index(id) {
            Some(i) => Some(self.recordings[i].clone_record()),
            None => None,
        }
    }

    /// Removes every record.
    pub fn clear(&mut self)
        ensures
            final(self).recs() == Seq::<RecordedRequest>::empty(),
    {
        self.recordings.clear();
        assert(self.recs() =~= Seq::<RecordedRequest>::empty());
    }

    /// The number of records held.
    pub fn len(&self) -> (n: usize)
        ensures
            n == self.recs().len(),
    {
        self.recordings.len()
    }
}

/// Ids all different from `k` mean the lookup answers nothing.
proof fn lemma_rec_all_absent(s: Seq<RecordedRequest>, k: Seq<char>)
    requires
        forall|j: int| 0 <= j < s.len() ==> (#[trigger] s[j]).id@ != k,
    ensures
        rec_lookup(s, k) is None,
    decreases s.len(),
{
    if s.len() > 0 {
        assert(forall|j: int|
            0 <= j < s.drop_first().len() ==> (#[trigger] s.drop_first()[j]).id@ != k);
        lemma_rec_all_absent(s.drop_first(), k);
    }
}

proof fn lemma_rec_first(s: Seq<RecordedRequest>, i: int, id: Seq<char>)
    requires
        0 <= i < s.len(),
        forall|q: int| 0 <= q < i ==> (#[trigger] s[q]).id@ != id,
        s[i].id@ == id,
    ensures
        rec_lookup(s, id) == Some(s[i]),
    decreases i,
{
    if i == 0 {
    } else {
        assert(s.drop_first()[i - 1] == s[i]);
        assert(forall|q: int| 0 <= q < i - 1 ==> (#[trigger] s.drop_first()[q]).id@ != id);
        lemma_rec_first(s.drop_first(), i - 1, id);
    }
}

proof fn lemma_rec_update(s: Seq<RecordedRequest>, i: int, p: RecordedRequest)
    requires
        0 <= i < s.len(),
        forall|q: int| 0 <= q < i ==> (#[trigger] s[q]).id@ != p.id@,
        s[i].id@ == p.id@,
    ensures
        rec_lookup(s.update(i, p), p.id@) == Some(p),
        forall|k: Seq<char>|
            k != p.id@ ==> #[trigger] rec_lookup(s.update(i, p), k) == rec_lookup(s, k),
    decreases s.len(),
{
    let t = s.update(i, p);
    if i == 0 {
        assert(t[0] == p);
        assert(t.drop_first() =~= s.drop_first());
        assert forall|k: Seq<char>| k != p.id@ implies #[trigger] rec_lookup(t, k) == rec_lookup(
            s,
            k,
        ) by {
            assert(rec_lookup(t, k) == rec_lookup(t.drop_first(), k));
            assert(rec_lookup(s, k) == rec_lookup(s.drop_first(), k));
        }
    } else {
        assert(t[0] == s[0]);
        assert(t.drop_first() =~= s.drop_first().update(i - 1, p));
        assert(forall|q: int|
            0 <= q < i - 1 ==> (#[trigger] s.drop_first()[q]).id@ != p.id@);
        lemma_rec_update(s.drop_first(), i - 1, p);
        assert(s[0].id@ != p.id@);
        assert(rec_lookup(t, p.id@) == rec_lookup(t.drop_first(), p.id@));
        assert forall|k: Seq<char>| k != p.id@ implies #[trigger] rec_lookup(t, k) == rec_lookup(
            s,
            k,
        ) by {
            if s[0].id@ == k {
            } else {
                assert(rec_lookup(t, k) == rec_lookup(t.drop_first(), k));
                assert(rec_lookup(s, k) == rec_lookup(s.drop_first(), k));
            }
        }
    }
}

proof fn lemma_rec_push(s: Seq<RecordedRequest>, p: RecordedRequest)
    requires
        rec_lookup(s, p.id@) is None,
    ensures
        rec_lookup(s.push(p), p.id@) == Some(p),
        forall|k: Seq<char>|
            k != p.id@ ==> #[trigger] rec_lookup(s.push(p), k) == rec_lookup(s, k),
    decreases s.len(),
{
    let t = s.push(p);
    if s.len() == 0 {
        assert(t[0] == p);
        assert(t.drop_first() =~= Seq::<RecordedRequest>::empty());
        assert forall|k: Seq<char>| k != p.id@ implies #[trigger] rec_lookup(t, k) == rec_lookup(
            s,
            k,
        ) by {
            assert(rec_lookup(t, k) == rec_lookup(t.drop_first(), k));
        }
    } else {
        assert(t[0] == s[0]);
        assert(s[0].id@ != p.id@);
        assert(t.drop_first() =~= s.drop_first().push(p));
        lemma_rec_push(s.drop_first(), p);
        assert(rec_lookup(t, p.id@) == rec_lookup(t.drop_first(), p.id@));
        assert forall|k: Seq<char>| k != p.id@ implies #[trigger] rec_lookup(t, k) == rec_lookup(
            s,
            k,
        ) by {
            if s[0].id@ == k {
            } else {
                assert(rec_lookup(t, k) == rec_lookup(t.drop_first(), k));
                assert(rec_lookup(s, k) == rec_lookup(s.drop_first(), k));
            }
        }
    }
}


/// One point on the last-hour timeline.
pub struct TimelinePoint {
    pub timestamp: u64,
    pub duration_ms: u64,
    pub status: u16,
    pub method: String,
}

/// Counts for one endpoint (a URL with its query string removed).
pub struct EndpointStats {
    pub endpoint: String,
    pub count: usize,
    pub avg_duration: u64,
    pub errors: usize,
    pub total_duration: u64,
}

/// The analytics view: method and status histograms, the busiest endpoints,
/// and the last hour's timeline.
pub struct Analytics {
    pub method_distribution: Vec<(String, usize)>,
    pub status_distribution: Vec<(u16, usize)>,
    pub top_endpoints: Vec<EndpointStats>,
    pub timeline: Vec<TimelinePoint>,
}

/// Saturating addition on `u64`.
pub open spec fn sat_add64(a: u64, b: u64) -> u64 {
    if a + b > u64::MAX {
        u64::MAX
    } else {
        (a + b) as u64
    }
}

/// How many records carry a response whose status lies in `[lo, hi)`.
pub open spec fn count_status_in(s: Seq<RecordedRequest>, lo: int, hi: int) -> int
    decreases s.len(),
{
    if s.len() == 0 {
        0
    } else {
        count_status_in(s.drop_last(), lo, hi) + (match s.last().response {
            Some(resp) => if lo <= resp.status < hi {
                1int
            } else {
                0int
            },
            None => 0int,
        })
    }
}

/// The saturating sum of the recorded durations.
pub open spec fn dur_total(s: Seq<RecordedRequest>) -> u64
    decreases s.len(),
{
    if s.len() == 0 {
        0
    } else {
        match s.last().duration_ms {
            Some(d) => sat_add64(dur_total(s.drop_last()), d),
            None => dur_total(s.drop_last()),
        }
    }
}

/// The least recorded duration; the `u64` maximum while there is none.
pub open spec fn dur_min(s: Seq<RecordedRequest>) -> u64
    decreases s.len(),
{
    if s.len() == 0 {
        u64::MAX
    } else {
        match s.last().duration_ms {
            Some(d) => if d < dur_min(s.drop_last()) {
                d
            } else {
                dur_min(s.drop_last())
            },
            None => dur_min(s.drop_last()),
        }
    }
}

/// The greatest recorded duration; zero while there is none.
pub open spec fn dur_max(s: Seq<RecordedRequest>) -> u64
    decreases s.len(),
{
    if s.len() == 0 {
        0
    } else {
        match s.last().duration_ms {
            Some(d) => if d > dur_max(s.drop_last()) {
                d
            } else {
                dur_max(s.drop_last())
            },
            None => dur_max(s.drop_last()),
        }
    }
}

/// How many records use this method.
pub open spec fn count_method(s: Seq<RecordedRequest>, m: Seq<char>) -> int
    decreases s.len(),
{
    if s.len() == 0 {
        0
    } else {
        count_method(s.drop_last(), m) + (if s.last().method@ == m {
            1int
        } else {
            0int
        })
    }
}

/// How many records carry a response with this status.
pub open spec fn count_status(s: Seq<RecordedRequest>, st: u16) -> int
    decreases s.len(),
{
    if s.len() == 0 {
        0
    } else {
        count_status(s.drop_last(), st) + (match s.last().response {
            Some(resp) => if resp.status == st {
                1int
            } else {
                0int
            },
            None => 0int,
        })
    }
}

/// How many records hit this endpoint.
pub open spec fn count_endpoint(s: Seq<RecordedRequest>, e: Seq<char>) -> int
    decreases s.len(),
{
    if s.len() == 0 {
        0
    } else {
        count_endpoint(s.drop_last(), e) + (if crate::endpoint_of(s.last().url@) == e {
            1int
        } else {
            0int
        })
    }
}

/// How many records on this endpoint carry an error status (400 or above).
pub open spec fn errors_endpoint(s: Seq<RecordedRequest>, e: Seq<char>) -> int
    decreases s.len(),
{
    if s.len() == 0 {
        0
    } else {
        errors_endpoint(s.drop_last(), e) + (if crate::endpoint_of(s.last().url@) == e {
            match s.last().response {
                Some(resp) => if resp.status >= 400 {
                    1int
                } else {
                    0int
                },
                None => 0int,
            }
        } else {
            0int
        })
    }
}

/// The saturating sum of this endpoint's recorded durations.
pub open spec fn dur_endpoint(s: Seq<RecordedRequest>, e: Seq<char>) -> u64
    decreases s.len(),
{
    if s.len() == 0 {
        0
    } else {
        if crate::endpoint_of(s.last().url@) == e {
            match s.last().duration_ms {
                Some(d) => sat_add64(dur_endpoint(s.drop_last(), e), d),
                None => dur_endpoint(s.drop_last(), e),
            }
        } else {
            dur_endpoint(s.drop_last(), e)
        }
    }
}

/// How many stored records pass the filters.
pub open spec fn count_accepted(s: Seq<RecordedRequest>, f: FilterOptions) -> int
    decreases s.len(),
{
    if s.len() == 0 {
        0
    } else {
        count_accepted(s.drop_last(), f) + (if filter_accepts(s.last(), f) {
            1int
        } else {
            0int
        })
    }
}

/// Every record passes an empty filter set, so the count is the length.
pub proof fn lemma_count_accepted_all(s: Seq<RecordedRequest>, f: FilterOptions)
    requires
        forall|k: int| 0 <= k < s.len() ==> filter_accepts(#[trigger] s[k], f),
    ensures
        count_accepted(s, f) == s.len(),
    decreases s.len(),
{
    if s.len() > 0 {
        assert(forall|k: int|
            0 <= k < s.drop_last().len() ==> filter_accepts(#[trigger] s.drop_last()[k], f));
        lemma_count_accepted_all(s.drop_last(), f);
        assert(s.last() == s[s.len() - 1]);
    }
}

/// How many stored records are stamped at or after `threshold`.
pub open spec fn count_recent(s: Seq<RecordedRequest>, threshold: u64) -> int
    decreases s.len(),
{
    if s.len() == 0 {
        0
    } else {
        count_recent(s.drop_last(), threshold) + (if s.last().timestamp >= threshold {
            1int
        } else {
            0int
        })
    }
}

/// Some stored record passes the filters and agrees with `rec`.
pub open spec fn from_filtered(
    s: Seq<RecordedRequest>,
    f: FilterOptions,
    rec: RecordedRequest,
) -> bool {
    exists|k: int|
        0 <= k < s.len() && filter_accepts(#[trigger] s[k], f) && same_record(rec, s[k])
}

/// Some stored record agrees with `rec`.
pub open spec fn from_stored(s: Seq<RecordedRequest>, rec: RecordedRequest) -> bool {
    exists|k: int| 0 <= k < s.len() && same_record(rec, #[trigger] s[k])
}

/// Some stored record passes the filters and equals `rec` exactly.
pub open spec fn from_filtered_exact(
    s: Seq<RecordedRequest>,
    f: FilterOptions,
    rec: RecordedRequest,
) -> bool {
    exists|k: int| 0 <= k < s.len() && filter_accepts(#[trigger] s[k], f) && rec == s[k]
}

/// Some returned record agrees with `rec`.
pub open spec fn some_same_rec(r: Seq<RecordedRequest>, rec: RecordedRequest) -> bool {
    exists|a: int| 0 <= a < r.len() && same_record(#[trigger] r[a], rec)
}

impl Storage {
    /// Borrows of the records passing the filters, sorted by timestamp
    /// descending; records of equal stamp keep their stored order.
    #[verifier::rlimit(50)]
    fn filtered_refs<'a>(&'a self, filters: &FilterOptions) -> (r: Vec<&'a RecordedRequest>)
        ensures
            r@.len() == count_accepted(self.recs(), *filters),
            forall|a: int, b: int| 0 <= a < b < r@.len() ==> r@[a].timestamp >= r@[b].timestamp,
            forall|a: int|
                0 <= a < r@.len() ==> from_filtered_exact(
                    self.recs(),
                    *filters,
                    *(#[trigger] r@[a]),
                ),
            forall|k: int|
                0 <= k < self.recs().len() && filter_accepts(#[trigger] self.recs()[k], *filters)
                    ==> crate::store::appears(r@, self.recs()[k]),
    {
        let n = self.recordings.len();
        let mut r: Vec<&'a RecordedRequest> = Vec::new();
        let mut i: usize = 0;
        proof {
            assert(self.recs().subrange(0, 0) =~= Seq::<RecordedRequest>::empty());
        }
        while i < n
            invariant
                i <= n,
                n == self.recs().len(),
                r@.len() == count_accepted(self.recs().subrange(0, i as int), *filters),
                forall|a: int, b: int|
                    0 <= a < b < r@.len() ==> r@[a].timestamp >= r@[b].timestamp,
                forall|a: int|
                    0 <= a < r@.len() ==> from_filtered_exact(
                        self.recs(),
                        *filters,
                        *(#[trigger] r@[a]),
                    ),
                forall|j: int|
                    0 <= j < i && filter_accepts(#[trigger] self.recs()[j], *filters)
                        ==> crate::store::appears(r@, self.recs()[j]),
            decreases n - i,
        {
            proof {
                assert(self.recs().subrange(0, i + 1).drop_last() =~= self.recs().subrange(
                    0,
                    i as int,
                ));
                assert(self.recs().subrange(0, i + 1).last() == self.recs()[i as int]);
            }
            let e = &self.recordings[i];
            if e.matches_filters(filters) {
                let ghost before = r@;
                let t = e.timestamp;
                let mut pos: usize = 0;
                while pos < r.len() && r[pos].timestamp >= t
                    invariant
                        pos <= r@.len(),
                        r@ == before,
                        t == e.timestamp,
                        forall|a: int| 0 <= a < pos ==> r@[a].timestamp >= t,
                    decreases r@.len() - pos,
                {
                    pos += 1;
                }
                proof {
                    if (pos as int) < before.len() {
                        assert(before[pos as int].timestamp < t);
                    }
                }
                r.insert(pos, e);
                proof {
                    let cur = r@;
                    assert(cur =~= before.insert(pos as int, e));
                    assert forall|a: int, b: int| 0 <= a < b < cur.len() implies cur[a].timestamp
                        >= cur[b].timestamp by {
                        lemma_rec_insert_index(before, pos as int, e, a);
                        lemma_rec_insert_index(before, pos as int, e, b);
                    }
                    assert forall|a: int| 0 <= a < cur.len() implies from_filtered_exact(
                        self.recs(),
                        *filters,
                        *(#[trigger] cur[a]),
                    ) by {
                        lemma_rec_insert_index(before, pos as int, e, a);
                        if a == pos as int {
                            assert(*cur[a] == self.recs()[i as int]);
                            assert(filter_accepts(self.recs()[i as int], *filters));
                        }
                    }
                    assert forall|j: int|
                        0 <= j < i + 1 && filter_accepts(#[trigger] self.recs()[j], *filters)
                            implies crate::store::appears(cur, self.recs()[j]) by {
                        if j < i {
                            let w = choose|w: int|
                                0 <= w < before.len() && *(#[trigger] before[w]) == self.recs()[j];
                            lemma_rec_insert_index(before, pos as int, e, if w < pos as int {
                                w
                            } else {
                                w + 1
                            });
                            if w < pos as int {
                                assert(*cur[w] == self.recs()[j]);
                            } else {
                                assert(*cur[w + 1] == self.recs()[j]);
                            }
                        } else {
                            lemma_rec_insert_index(before, pos as int, e, pos as int);
                            assert(*cur[pos as int] == self.recs()[j]);
                        }
                    }
                }
            }
            i += 1;
        }
        proof {
            assert(self.recs().subrange(0, n as int) =~= self.recs());
        }
        r
    }

    /// Copies of the records passing the filters, newest first.
    pub fn get_filtered(&self, filters: &FilterOptions) -> (r: Vec<RecordedRequest>)
        ensures
            r@.len() == count_accepted(self.recs(), *filters),
            forall|a: int, b: int| 0 <= a < b < r@.len() ==> r@[a].timestamp >= r@[b].timestamp,
            forall|a: int|
                0 <= a < r@.len() ==> from_filtered(self.recs(), *filters, #[trigger] r@[a]),
            forall|k: int|
                0 <= k < self.recs().len() && filter_accepts(#[trigger] self.recs()[k], *filters)
                    ==> some_same_rec(r@, self.recs()[k]),
    {
        let refs = self.filtered_refs(filters);
        let n = refs.len();
        let mut r: Vec<RecordedRequest> = Vec::new();
        let mut i: usize = 0;
        while i < n
            invariant
                i <= n,
                n == refs@.len(),
                refs@.len() == count_accepted(self.recs(), *filters),
                r@.len() == i,
                forall|a: int, b: int|
                    0 <= a < b < refs@.len() ==> refs@[a].timestamp >= refs@[b].timestamp,
                forall|a: int|
                    0 <= a < refs@.len() ==> from_filtered_exact(
                        self.recs(),
                        *filters,
                        *(#[trigger] refs@[a]),
                    ),
                forall|k: int|
                    0 <= k < self.recs().len() && filter_accepts(
                        #[trigger] self.recs()[k],
                        *filters,
                    ) ==> crate::store::appears(refs@, self.recs()[k]),
                forall|a: int| 0 <= a < i ==> same_record(#[trigger] r@[a], *refs@[a]),
            decreases n - i,
        {
            r.push(refs[i].clone_record());
            i += 1;
        }
        proof {
            assert forall|a: int, b: int| 0 <= a < b < r@.len() implies r@[a].timestamp
                >= r@[b].timestamp by {
                assert(same_record(r@[a], *refs@[a]));
                assert(same_record(r@[b], *refs@[b]));
            }
            assert forall|a: int| 0 <= a < r@.len() implies from_filtered(
                self.recs(),
                *filters,
                #[trigger] r@[a],
            ) by {
                assert(from_filtered_exact(self.recs(), *filters, *(refs@[a])));
                let k = choose|k: int|
                    0 <= k < self.recs().len() && filter_accepts(
                        #[trigger] self.recs()[k],
                        *filters,
                    ) && *(refs@[a]) == self.recs()[k];
                assert(same_record(r@[a], self.recs()[k]));
            }
            assert forall|k: int|
                0 <= k < self.recs().len() && filter_accepts(#[trigger] self.recs()[k], *filters)
                    implies some_same_rec(r@, self.recs()[k]) by {
                assert(crate::store::appears(refs@, self.recs()[k]));
                let w = choose|w: int|
                    0 <= w < refs@.len() && *(#[trigger] refs@[w]) == self.recs()[k];
                assert(same_record(r@[w], self.recs()[k]));
            }
        }
        r
    }

    /// Copies of all records, newest first.
    pub fn get_all(&self) -> (r: Vec<RecordedRequest>)
        ensures
            r@.len() == self.recs().len(),
            forall|a: int, b: int| 0 <= a < b < r@.len() ==> r@[a].timestamp >= r@[b].timestamp,
            forall|a: int| 0 <= a < r@.len() ==> from_stored(self.recs(), #[trigger] r@[a]),
            forall|k: int|
                0 <= k < self.recs().len() ==> some_same_rec(r@, #[trigger] self.recs()[k]),
    {
        let none_filters = FilterOptions {
            search: None,
            method: None,
            status: None,
            min_duration: None,
            max_duration: None,
            from_time: None,
            to_time: None,
        };
        let r = self.get_filtered(&none_filters);
        proof {
            assert(forall|k: int|
                0 <= k < self.recs().len() ==> filter_accepts(
                    #[trigger] self.recs()[k],
                    none_filters,
                ));
            lemma_count_accepted_all(self.recs(), none_filters);
            assert forall|a: int| 0 <= a < r@.len() implies from_stored(
                self.recs(),
                #[trigger] r@[a],
            ) by {
                assert(from_filtered(self.recs(), none_filters, r@[a]));
                let k = choose|k: int|
                    0 <= k < self.recs().len() && filter_accepts(
                        #[trigger] self.recs()[k],
                        none_filters,
                    ) && same_record(r@[a], self.recs()[k]);
                assert(same_record(r@[a], self.recs()[k]));
            }
        }
        r
    }

    /// Counts of the completed records: status classes, and the least,
    /// average and greatest duration (the average over all records, the
    /// least reported as zero while no duration exists).
    pub fn get_stats(&self) -> (r: RecordingStats)
        ensures
            r.total == self.recs().len(),
            r.success as int == count_status_in(self.recs(), 200, 300),
            r.redirects as int == count_status_in(self.recs(), 300, 400),
            r.client_errors as int == count_status_in(self.recs(), 400, 500),
            r.server_errors as int == count_status_in(self.recs(), 500, 0x10000),
            r.avg_duration_ms == if self.recs().len() > 0 {
                dur_total(self.recs()) / (self.recs().len() as u64)
            } else {
                0u64
            },
            r.min_duration_ms == if dur_min(self.recs()) == u64::MAX {
                0u64
            } else {
                dur_min(self.recs())
            },
            r.max_duration_ms == dur_max(self.recs()),
    {
        let n = self.recordings.len();
        let mut success: usize = 0;
        let mut redirects: usize = 0;
        let mut client_errors: usize = 0;
        let mut server_errors: usize = 0;
        let mut total_duration: u64 = 0;
        let mut min_duration: u64 = u64::MAX;
        let mut max_duration: u64 = 0;
        let mut i: usize = 0;
        proof {
            assert(self.recs().subrange(0, 0) =~= Seq::<RecordedRequest>::empty());
        }
        while i < n
            invariant
                i <= n,
                n == self.recs().len(),
                success as int == count_status_in(self.recs().subrange(0, i as int), 200, 300),
                redirects as int == count_status_in(self.recs().subrange(0, i as int), 300, 400),
                client_errors as int == count_status_in(
                    self.recs().subrange(0, i as int),
                    400,
                    500,
                ),
                server_errors as int == count_status_in(
                    self.recs().subrange(0, i as int),
                    500,
                    0x10000,
                ),
                total_duration == dur_total(self.recs().subrange(0, i as int)),
                min_duration == dur_min(self.recs().subrange(0, i as int)),
                max_duration == dur_max(self.recs().subrange(0, i as int)),
                success <= i && redirects <= i && client_errors <= i && server_errors <= i,
            decreases n - i,
        {
            proof {
                assert(self.recs().subrange(0, i + 1).drop_last() =~= self.recs().subrange(
                    0,
                    i as int,
                ));
                assert(self.recs().subrange(0, i + 1).last() == self.recs()[i as int]);
            }
            let rec = &self.recordings[i];
            match &rec.response {
                Some(resp) => {
                    let st = resp.status;
                    if st >= 200 && st < 300 {
                        success += 1;
                    } else if st >= 300 && st < 400 {
                        redirects += 1;
                    } else if st >= 400 && st < 500 {
                        client_errors += 1;
                    } else if st >= 500 {
                        server_errors += 1;
                    }
                },
                None => {},
            }
            match rec.duration_ms {
                Some(d) => {
                    total_duration = if total_duration <= u64::MAX - d {
                        total_duration + d
                    } else {
                        u64::MAX
                    };
                    if d < min_duration {
                        min_duration = d;
                    }
                    if d > max_duration {
                        max_duration = d;
                    }
                },
                None => {},
            }
            i += 1;
        }
        proof {
            assert(self.recs().subrange(0, n as int) =~= self.recs());
        }
        let avg_duration_ms: u64 = if n > 0 {
            total_duration / (n as u64)
        } else {
            0
        };
        RecordingStats {
            total: n,
            success,
            redirects,
            client_errors,
            server_errors,
            avg_duration_ms,
            min_duration_ms: if min_duration == u64::MAX {
                0
            } else {
                min_duration
            },
            max_duration_ms: max_duration,
        }
    }
}

/// Where an element is after a single-position insert.
proof fn lemma_rec_insert_index<'a>(s: Seq<&'a RecordedRequest>, p: int, e: &'a RecordedRequest, x: int)
    requires
        0 <= p <= s.len(),
        0 <= x < s.len() + 1,
    ensures
        s.insert(p, e)[x] == if x < p {
            s[x]
        } else if x == p {
            e
        } else {
            s[x - 1]
        },
{
}


/// The timeline point a record contributes: absent duration and status read
/// as zero.
pub open spec fn point_of(rec: RecordedRequest) -> TimelinePoint {
    TimelinePoint {
        timestamp: rec.timestamp,
        duration_ms: match rec.duration_ms {
            Some(d) => d,
            None => 0u64,
        },
        status: match rec.response {
            Some(resp) => resp.status,
            None => 0u16,
        },
        method: rec.method,
    }
}

/// Some histogram key equals `m`.
pub open spec fn method_listed(md: Seq<(String, usize)>, m: Seq<char>) -> bool {
    exists|a: int| 0 <= a < md.len() && (#[trigger] md[a]).0@ == m
}

/// Some histogram key equals `st`.
pub open spec fn status_listed(sd: Seq<(u16, usize)>, st: u16) -> bool {
    exists|a: int| 0 <= a < sd.len() && (#[trigger] sd[a]).0 == st
}

/// Some endpoint entry carries `e`.
pub open spec fn endpoint_listed(te: Seq<EndpointStats>, e: Seq<char>) -> bool {
    exists|a: int| 0 <= a < te.len() && (#[trigger] te[a]).endpoint@ == e
}

/// An endpoint entry whose numbers are the true counts over `s`.
pub open spec fn endpoint_entry_correct(s: Seq<RecordedRequest>, e: EndpointStats) -> bool {
    &&& count_endpoint(s, e.endpoint@) == e.count as int
    &&& e.count > 0
    &&& errors_endpoint(s, e.endpoint@) == e.errors as int
    &&& dur_endpoint(s, e.endpoint@) == e.total_duration
    &&& e.avg_duration == e.total_duration / (e.count as u64)
}

/// Some timeline point equals `p`.
pub open spec fn point_listed(tl: Seq<TimelinePoint>, p: TimelinePoint) -> bool {
    exists|a: int| 0 <= a < tl.len() && #[trigger] tl[a] == p
}

/// Some stored record contributes the point `p`.
pub open spec fn point_of_some(s: Seq<RecordedRequest>, p: TimelinePoint) -> bool {
    exists|k: int| 0 <= k < s.len() && p == point_of(#[trigger] s[k])
}

/// Some record at or after `threshold` contributes the point `p`.
pub open spec fn point_from(s: Seq<RecordedRequest>, threshold: u64, p: TimelinePoint) -> bool {
    exists|k: int|
        0 <= k < s.len() && (#[trigger] s[k]).timestamp >= threshold && p == point_of(s[k])
}

impl Storage {
    /// The number of records whose method is `m`, among the first `upto`.
    fn count_method_upto(&self, m: &str) -> (c: usize)
        ensures
            c as int == count_method(self.recs(), m@),
    {
        let n = self.recordings.len();
        let mut c: usize = 0;
        let mut j: usize = 0;
        proof {
            assert(self.recs().subrange(0, 0) =~= Seq::<RecordedRequest>::empty());
        }
        while j < n
            invariant
                j <= n,
                n == self.recs().len(),
                c <= j,
                c as int == count_method(self.recs().subrange(0, j as int), m@),
            decreases n - j,
        {
            proof {
                assert(self.recs().subrange(0, j + 1).drop_last() =~= self.recs().subrange(
                    0,
                    j as int,
                ));
                assert(self.recs().subrange(0, j + 1).last() == self.recs()[j as int]);
            }
            if str_eq(self.recordings[j].method.as_str(), m) {
                c += 1;
            }
            j += 1;
        }
        proof {
            assert(self.recs().subrange(0, n as int) =~= self.recs());
        }
        c
    }

    /// The number of records carrying a response with status `st`.
    fn count_status_exec(&self, st: u16) -> (c: usize)
        ensures
            c as int == count_status(self.recs(), st),
    {
        let n = self.recordings.len();
        let mut c: usize = 0;
        let mut j: usize = 0;
        proof {
            assert(self.recs().subrange(0, 0) =~= Seq::<RecordedRequest>::empty());
        }
        while j < n
            invariant
                j <= n,
                n == self.recs().len(),
                c <= j,
                c as int == count_status(self.recs().subrange(0, j as int), st),
            decreases n - j,
        {
            proof {
                assert(self.recs().subrange(0, j + 1).drop_last() =~= self.recs().subrange(
                    0,
                    j as int,
                ));
                assert(self.recs().subrange(0, j + 1).last() == self.recs()[j as int]);
            }
            match &self.recordings[j].response {
                Some(resp) => {
                    if resp.status == st {
                        c += 1;
                    }
                },
                None => {},
            }
            j += 1;
        }
        proof {
            assert(self.recs().subrange(0, n as int) =~= self.recs());
        }
        c
    }

    /// The counts for one endpoint: hits, errors, and total duration.
    fn endpoint_counts(&self, e: &str) -> (r: (usize, usize, u64))
        ensures
            r.0 as int == count_endpoint(self.recs(), e@),
            r.1 as int == errors_endpoint(self.recs(), e@),
            r.2 == dur_endpoint(self.recs(), e@),
    {
        let n = self.recordings.len();
        let mut c: usize = 0;
        let mut errs: usize = 0;
        let mut dur: u64 = 0;
        let mut j: usize = 0;
        proof {
            assert(self.recs().subrange(0, 0) =~= Seq::<RecordedRequest>::empty());
        }
        while j < n
            invariant
                j <= n,
                n == self.recs().len(),
                c <= j,
                errs <= j,
                c as int == count_endpoint(self.recs().subrange(0, j as int), e@),
                errs as int == errors_endpoint(self.recs().subrange(0, j as int), e@),
                dur == dur_endpoint(self.recs().subrange(0, j as int), e@),
            decreases n - j,
        {
            proof {
                assert(self.recs().subrange(0, j + 1).drop_last() =~= self.recs().subrange(
                    0,
                    j as int,
                ));
                assert(self.recs().subrange(0, j + 1).last() == self.recs()[j as int]);
            }
            let ep = crate::extract_endpoint(self.recordings[j].url.as_str());
            if str_eq(ep.as_str(), e) {
                c += 1;
                match &self.recordings[j].response {
                    Some(resp) => {
                        if resp.status >= 400 {
                            errs += 1;
                        }
                    },
                    None => {},
                }
                match self.recordings[j].duration_ms {
                    Some(d) => {
                        dur = if dur <= u64::MAX - d {
                            dur + d
                        } else {
                            u64::MAX
                        };
                    },
                    None => {},
                }
            }
            j += 1;
        }
        proof {
            assert(self.recs().subrange(0, n as int) =~= self.recs());
        }
        (c, errs, dur)
    }

    /// The analytics view at time `now_ms`: exact histograms of methods and
    /// statuses; the up-to-ten busiest endpoints, counts exact, sorted by
    /// hits descending (anything left out has no more hits than the last
    /// entry); and the points of the last hour, oldest first.
    #[verifier::rlimit(100)]
    pub fn get_analytics_at(&self, now_ms: u64) -> (r: Analytics)
        ensures
            ({
                let md = r.method_distribution@;
                &&& forall|a: int, b: int|
                    0 <= a < b < md.len() ==> (#[trigger] md[a]).0@ != (#[trigger] md[b]).0@
                &&& forall|a: int|
                    0 <= a < md.len() ==> (#[trigger] md[a]).1 as int == count_method(
                        self.recs(),
                        md[a].0@,
                    ) && count_method(self.recs(), md[a].0@) > 0
                &&& forall|k: int|
                    0 <= k < self.recs().len() ==> method_listed(
                        md,
                        (#[trigger] self.recs()[k]).method@,
                    )
            }),
            ({
                let sd = r.status_distribution@;
                &&& forall|a: int, b: int|
                    0 <= a < b < sd.len() ==> (#[trigger] sd[a]).0 != (#[trigger] sd[b]).0
                &&& forall|a: int|
                    0 <= a < sd.len() ==> (#[trigger] sd[a]).1 as int == count_status(
                        self.recs(),
                        sd[a].0,
                    ) && count_status(self.recs(), sd[a].0) > 0
                &&& forall|k: int|
                    0 <= k < self.recs().len() ==> match (#[trigger] self.recs()[k]).response {
                        Some(resp) => status_listed(sd, resp.status),
                        None => true,
                    }
            }),
            ({
                let te = r.top_endpoints@;
                &&& te.len() <= 10
                &&& forall|a: int, b: int|
                    0 <= a < b < te.len() ==> (#[trigger] te[a]).count >= (#[trigger] te[b]).count
                &&& forall|a: int, b: int|
                    0 <= a < b < te.len() ==> (#[trigger] te[a]).endpoint@
                        != (#[trigger] te[b]).endpoint@
                &&& forall|a: int|
                    0 <= a < te.len() ==> endpoint_entry_correct(self.recs(), #[trigger] te[a])
                &&& forall|k: int|
                    0 <= k < self.recs().len() ==> endpoint_listed(
                        te,
                        crate::endpoint_of((#[trigger] self.recs()[k]).url@),
                    ) || (te.len() == 10 && count_endpoint(
                        self.recs(),
                        crate::endpoint_of(self.recs()[k].url@),
                    ) <= te[9].count)
            }),
            ({
                let tl = r.timeline@;
                let threshold = if now_ms >= 3600000 {
                    (now_ms - 3600000) as u64
                } else {
                    0u64
                };
                &&& tl.len() == count_recent(self.recs(), threshold)
                &&& forall|a: int, b: int|
                    0 <= a < b < tl.len() ==> (#[trigger] tl[a]).timestamp
                        <= (#[trigger] tl[b]).timestamp
                &&& forall|a: int|
                    0 <= a < tl.len() ==> point_from(self.recs(), threshold, #[trigger] tl[a])
                &&& forall|k: int|
                    0 <= k < self.recs().len() && (#[trigger] self.recs()[k]).timestamp
                        >= threshold ==> point_listed(tl, point_of(self.recs()[k]))
            }),
    {
        let n = self.recordings.len();

        // method histogram: one entry per distinct method, at its first record
        let mut method_distribution: Vec<(String, usize)> = Vec::new();
        let mut i: usize = 0;
        while i < n
            invariant
                i <= n,
                n == self.recs().len(),
                forall|a: int, b: int|
                    0 <= a < b < method_distribution@.len() ==> (#[trigger] method_distribution@[a]).0@ != (#[trigger] method_distribution@[b]).0@,
                forall|a: int|
                    0 <= a < method_distribution@.len() ==> (#[trigger] method_distribution@[a]).1 as int == count_method(self.recs(), method_distribution@[a].0@)
                        && count_method(self.recs(), method_distribution@[a].0@) > 0,
                forall|k: int|
                    0 <= k < i ==> method_listed(
                        method_distribution@,
                        (#[trigger] self.recs()[k]).method@,
                    ),
            decreases n - i,
        {
            let m = &self.recordings[i].method;
            let mut seen = false;
            let mut a: usize = 0;
            let dn = method_distribution.len();
            while a < dn && !seen
                invariant
                    a <= dn,
                    dn == method_distribution@.len(),
                    seen ==> a < dn && method_distribution@[a as int].0@ == m@,
                    !seen ==> forall|q: int|
                        0 <= q < a ==> (#[trigger] method_distribution@[q]).0@ != m@,
                decreases dn - a, (if seen { 0int } else { 1int }),
            {
                if str_eq(method_distribution[a].0.as_str(), m.as_str()) {
                    seen = true;
                } else {
                    a += 1;
                }
            }
            let ghost md0 = method_distribution@;
            if !seen {
                let c = self.count_method_upto(m.as_str());
                proof {
                    lemma_count_method_at(self.recs(), i as int);
                }
                let entry = (m.clone(), c);
                method_distribution.push(entry);
                proof {
                    let md = method_distribution@;
                    assert(md =~= md0.push(entry));
                    assert(md[md.len() - 1].0@ == m@);
                }
            }
            proof {
                let md = method_distribution@;
                if seen {
                    assert(md[a as int].0@ == m@);
                }
                assert(method_listed(md, self.recs()[i as int].method@));
                assert forall|k: int| 0 <= k < i + 1 implies method_listed(
                    md,
                    (#[trigger] self.recs()[k]).method@,
                ) by {
                    if k < i {
                        let w = choose|w: int|
                            0 <= w < md0.len() && (#[trigger] md0[w]).0@
                                == self.recs()[k].method@;
                        assert(md[w].0@ == self.recs()[k].method@);
                    }
                }
            }
            i += 1;
        }

        // status histogram
        let mut status_distribution: Vec<(u16, usize)> = Vec::new();
        let mut i2: usize = 0;
        while i2 < n
            invariant
                i2 <= n,
                n == self.recs().len(),
                forall|a: int, b: int|
                    0 <= a < b < status_distribution@.len() ==> (#[trigger] status_distribution@[a]).0 != (#[trigger] status_distribution@[b]).0,
                forall|a: int|
                    0 <= a < status_distribution@.len() ==> (#[trigger] status_distribution@[a]).1 as int == count_status(self.recs(), status_distribution@[a].0)
                        && count_status(self.recs(), status_distribution@[a].0) > 0,
                forall|k: int|
                    0 <= k < i2 ==> match (#[trigger] self.recs()[k]).response {
                        Some(resp) => status_listed(status_distribution@, resp.status),
                        None => true,
                    },
            decreases n - i2,
        {
            match &self.recordings[i2].response {
                Some(resp) => {
                    let st = resp.status;
                    let mut seen = false;
                    let mut a: usize = 0;
                    let dn = status_distribution.len();
                    while a < dn && !seen
                        invariant
                            a <= dn,
                            dn == status_distribution@.len(),
                            seen ==> a < dn && status_distribution@[a as int].0 == st,
                            !seen ==> forall|q: int|
                                0 <= q < a ==> (#[trigger] status_distribution@[q]).0 != st,
                        decreases dn - a, (if seen { 0int } else { 1int }),
                    {
                        if status_distribution[a].0 == st {
                            seen = true;
                        } else {
                            a += 1;
                        }
                    }
                    let ghost sd0 = status_distribution@;
                    if !seen {
                        let c = self.count_status_exec(st);
                        proof {
                            lemma_count_status_at(self.recs(), i2 as int);
                        }
                        status_distribution.push((st, c));
                        proof {
                            assert(status_distribution@ =~= sd0.push((st, c)));
                        }
                    }
                    proof {
                        let sd = status_distribution@;
                        if seen {
                            assert(sd[a as int].0 == st);
                        } else {
                            assert(sd[sd.len() - 1].0 == st);
                        }
                        assert(status_listed(sd, st));
                        assert forall|k: int|
                            0 <= k < i2 + 1 implies match (#[trigger] self.recs()[k]).response {
                            Some(resp2) => status_listed(sd, resp2.status),
                            None => true,
                        } by {
                            if k < i2 {
                                match self.recs()[k].response {
                                    Some(resp2) => {
                                        let w = choose|w: int|
                                            0 <= w < sd0.len() && (#[trigger] sd0[w]).0
                                                == resp2.status;
                                        assert(sd[w].0 == resp2.status);
                                    },
                                    None => {},
                                }
                            }
                        }
                    }
                },
                None => {},
            }
            i2 += 1;
        }

        // endpoint entries, then sorted by count and capped at ten
        let mut entries: Vec<EndpointStats> = Vec::new();
        let mut i3: usize = 0;
        while i3 < n
            invariant
                i3 <= n,
                n == self.recs().len(),
                forall|a: int, b: int|
                    0 <= a < b < entries@.len() ==> (#[trigger] entries@[a]).endpoint@
                        != (#[trigger] entries@[b]).endpoint@,
                forall|a: int|
                    0 <= a < entries@.len() ==> endpoint_entry_correct(
                        self.recs(),
                        #[trigger] entries@[a],
                    ),
                forall|k: int|
                    0 <= k < i3 ==> endpoint_listed(
                        entries@,
                        crate::endpoint_of((#[trigger] self.recs()[k]).url@),
                    ),
            decreases n - i3,
        {
            let ep = crate::extract_endpoint(self.recordings[i3].url.as_str());
            let mut seen = false;
            let mut a: usize = 0;
            let dn = entries.len();
            while a < dn && !seen
                invariant
                    a <= dn,
                    dn == entries@.len(),
                    seen ==> a < dn && entries@[a as int].endpoint@ == ep@,
                    !seen ==> forall|q: int|
                        0 <= q < a ==> (#[trigger] entries@[q]).endpoint@ != ep@,
                decreases dn - a, (if seen { 0int } else { 1int }),
            {
                if str_eq(entries[a].endpoint.as_str(), ep.as_str()) {
                    seen = true;
                } else {
                    a += 1;
                }
            }
            let ghost en0 = entries@;
            if !seen {
                let (c, errs, dur) = self.endpoint_counts(ep.as_str());
                proof {
                    lemma_count_endpoint_at(self.recs(), i3 as int);
                }
                let avg = if c > 0 {
                    dur / (c as u64)
                } else {
                    0
                };
                let entry = EndpointStats {
                    endpoint: ep,
                    count: c,
                    avg_duration: avg,
                    errors: errs,
                    total_duration: dur,
                };
                entries.push(entry);
                proof {
                    assert(entries@ =~= en0.push(entry));
                    assert(entries@[entries@.len() - 1].endpoint@ == crate::endpoint_of(
                        self.recs()[i3 as int].url@,
                    ));
                }
            }
            proof {
                let en = entries@;
                let e3 = crate::endpoint_of(self.recs()[i3 as int].url@);
                if seen {
                    assert(en[a as int].endpoint@ == e3);
                }
                assert(endpoint_listed(en, e3));
                assert forall|k: int| 0 <= k < i3 + 1 implies endpoint_listed(
                    en,
                    crate::endpoint_of((#[trigger] self.recs()[k]).url@),
                ) by {
                    if k < i3 {
                        let w = choose|w: int|
                            0 <= w < en0.len() && (#[trigger] en0[w]).endpoint@
                                == crate::endpoint_of(self.recs()[k].url@);
                        assert(en[w].endpoint@ == crate::endpoint_of(self.recs()[k].url@));
                    }
                }
            }
            i3 += 1;
        }

        // sort the entries by count descending
        let mut sorted: Vec<EndpointStats> = Vec::new();
        while entries.len() > 0
            invariant
                forall|a: int, b: int|
                    0 <= a < b < sorted@.len() ==> (#[trigger] sorted@[a]).count
                        >= (#[trigger] sorted@[b]).count,
                forall|a: int|
                    0 <= a < sorted@.len() ==> endpoint_entry_correct(
                        self.recs(),
                        #[trigger] sorted@[a],
                    ),
                forall|a: int|
                    0 <= a < entries@.len() ==> endpoint_entry_correct(
                        self.recs(),
                        #[trigger] entries@[a],
                    ),
                forall|a: int, b: int|
                    0 <= a < b < entries@.len() ==> (#[trigger] entries@[a]).endpoint@
                        != (#[trigger] entries@[b]).endpoint@,
                forall|a: int, b: int|
                    0 <= a < b < sorted@.len() ==> (#[trigger] sorted@[a]).endpoint@
                        != (#[trigger] sorted@[b]).endpoint@,
                forall|a: int, b: int|
                    0 <= a < sorted@.len() && 0 <= b < entries@.len() ==> (#[trigger] sorted@[a]).endpoint@ != (#[trigger] entries@[b]).endpoint@,
                forall|k: int|
                    0 <= k < self.recs().len() ==> endpoint_listed(
                        sorted@,
                        crate::endpoint_of((#[trigger] self.recs()[k]).url@),
                    ) || endpoint_listed(
                        entries@,
                        crate::endpoint_of(self.recs()[k].url@),
                    ),
            decreases entries@.len(),
        {
            let ghost entries0 = entries@;
            let e = entries.remove(0);
            proof {
                assert(entries@ =~= entries0.drop_first());
            }
            let c = e.count;
            let ghost before = sorted@;
            let mut pos: usize = 0;
            while pos < sorted.len() && sorted[pos].count >= c
                invariant
                    pos <= sorted@.len(),
                    sorted@ == before,
                    c == e.count,
                    forall|a: int| 0 <= a < pos ==> (#[trigger] sorted@[a]).count >= c,
                decreases sorted@.len() - pos,
            {
                pos += 1;
            }
            proof {
                if (pos as int) < before.len() {
                    assert(before[pos as int].count < c);
                }
            }
            sorted.insert(pos, e);
            proof {
                let cur = sorted@;
                assert(cur =~= before.insert(pos as int, e));
                assert forall|x: int| 0 <= x < cur.len() implies #[trigger] cur[x] == (if x
                    < pos as int {
                    before[x]
                } else if x == pos as int {
                    e
                } else {
                    before[x - 1]
                }) by {}
                assert forall|k: int| 0 <= k < self.recs().len() implies endpoint_listed(
                    cur,
                    crate::endpoint_of((#[trigger] self.recs()[k]).url@),
                ) || endpoint_listed(
                    entries@,
                    crate::endpoint_of(self.recs()[k].url@),
                ) by {
                    let ep = crate::endpoint_of(self.recs()[k].url@);
                    if endpoint_listed(before, ep) {
                        let w = choose|w: int|
                            0 <= w < before.len() && (#[trigger] before[w]).endpoint@ == ep;
                        if w < pos as int {
                            assert(cur[w].endpoint@ == ep);
                        } else {
                            assert(cur[w + 1].endpoint@ == ep);
                        }
                    } else if endpoint_listed(entries0, ep) {
                        let w = choose|w: int|
                            0 <= w < entries0.len() && (#[trigger] entries0[w]).endpoint@ == ep;
                        if w == 0 {
                            assert(cur[pos as int].endpoint@ == ep);
                        } else {
                            assert(entries@[w - 1].endpoint@ == ep);
                        }
                    }
                }
            }
        }
        let ghost full = sorted@;
        sorted.truncate(10);
        proof {
            assert(sorted@ =~= (if full.len() <= 10 {
                full
            } else {
                full.subrange(0, 10)
            }));
            let te = sorted@;
            assert(forall|x: int| 0 <= x < te.len() ==> #[trigger] te[x] == full[x]);
            assert forall|k: int| 0 <= k < self.recs().len() implies endpoint_listed(
                te,
                crate::endpoint_of((#[trigger] self.recs()[k]).url@),
            ) || (te.len() == 10 && count_endpoint(
                self.recs(),
                crate::endpoint_of(self.recs()[k].url@),
            ) <= te[9].count) by {
                let ep = crate::endpoint_of(self.recs()[k].url@);
                assert(endpoint_listed(full, ep));
                let w = choose|w: int|
                    0 <= w < full.len() && (#[trigger] full[w]).endpoint@ == ep;
                if w < te.len() {
                    assert(te[w].endpoint@ == ep);
                    assert(endpoint_listed(te, ep));
                } else {
                    assert(te.len() == 10);
                    assert(full[w].count <= full[9].count);
                    assert(endpoint_entry_correct(self.recs(), full[w]));
                    assert(te[9] == full[9]);
                }
            }
        }

        // the last hour's timeline, oldest first
        let threshold: u64 = if now_ms >= 3600000 {
            now_ms - 3600000
        } else {
            0
        };
        let mut timeline: Vec<TimelinePoint> = Vec::new();
        let mut i4: usize = 0;
        proof {
            assert(self.recs().subrange(0, 0) =~= Seq::<RecordedRequest>::empty());
        }
        while i4 < n
            invariant
                i4 <= n,
                n == self.recs().len(),
                timeline@.len() == count_recent(self.recs().subrange(0, i4 as int), threshold),
                forall|a: int, b: int|
                    0 <= a < b < timeline@.len() ==> (#[trigger] timeline@[a]).timestamp
                        <= (#[trigger] timeline@[b]).timestamp,
                forall|a: int|
                    0 <= a < timeline@.len() ==> point_from(
                        self.recs(),
                        threshold,
                        #[trigger] timeline@[a],
                    ),
                forall|k: int|
                    0 <= k < i4 && (#[trigger] self.recs()[k]).timestamp >= threshold
                        ==> point_listed(timeline@, point_of(self.recs()[k])),
            decreases n - i4,
        {
            proof {
                assert(self.recs().subrange(0, i4 + 1).drop_last() =~= self.recs().subrange(
                    0,
                    i4 as int,
                ));
                assert(self.recs().subrange(0, i4 + 1).last() == self.recs()[i4 as int]);
            }
            let rec = &self.recordings[i4];
            if rec.timestamp >= threshold {
                let p = TimelinePoint {
                    timestamp: rec.timestamp,
                    duration_ms: match rec.duration_ms {
                        Some(d) => d,
                        None => 0,
                    },
                    status: match &rec.response {
                        Some(resp) => resp.status,
                        None => 0,
                    },
                    method: rec.method.clone(),
                };
                proof {
                    assert(p == point_of(self.recs()[i4 as int]));
                }
                let t = p.timestamp;
                let ghost before = timeline@;
                let mut pos: usize = timeline.len();
                while pos > 0 && timeline[pos - 1].timestamp > t
                    invariant
                        pos <= timeline@.len(),
                        timeline@ == before,
                        forall|a: int|
                            pos <= a < timeline@.len() ==> (#[trigger] timeline@[a]).timestamp
                                > t,
                    decreases pos,
                {
                    pos -= 1;
                }
                proof {
                    if pos > 0 {
                        assert(before[pos - 1].timestamp <= t);
                    }
                }
                timeline.insert(pos, p);
                proof {
                    let cur = timeline@;
                    assert(cur =~= before.insert(pos as int, p));
                    assert forall|x: int| 0 <= x < cur.len() implies #[trigger] cur[x] == (if x
                        < pos as int {
                        before[x]
                    } else if x == pos as int {
                        p
                    } else {
                        before[x - 1]
                    }) by {}
                    assert forall|a: int, b: int| 0 <= a < b < cur.len() implies (
                    #[trigger] cur[a]).timestamp <= (#[trigger] cur[b]).timestamp by {
                        let pp = pos as int;
                        if b < pp {
                            assert(cur[a] == before[a] && cur[b] == before[b]);
                        } else if b == pp {
                            assert(cur[b] == p);
                            assert(cur[a] == before[a]);
                            assert(before[a].timestamp <= before[pp - 1].timestamp);
                        } else {
                            assert(cur[b] == before[b - 1]);
                            assert(before[b - 1].timestamp > t);
                            if a < pp {
                                assert(cur[a] == before[a]);
                                assert(before[a].timestamp <= before[b - 1].timestamp);
                            } else if a == pp {
                                assert(cur[a] == p);
                            } else {
                                assert(cur[a] == before[a - 1]);
                                assert(before[a - 1].timestamp <= before[b - 1].timestamp);
                            }
                        }
                    }
                    assert forall|k: int|
                        0 <= k < i4 + 1 && (#[trigger] self.recs()[k]).timestamp >= threshold
                            implies point_listed(cur, point_of(self.recs()[k])) by {
                        if k < i4 {
                            let w = choose|w: int|
                                0 <= w < before.len() && #[trigger] before[w] == point_of(
                                    self.recs()[k],
                                );
                            if w < pos as int {
                                assert(cur[w] == point_of(self.recs()[k]));
                            } else {
                                assert(cur[w + 1] == point_of(self.recs()[k]));
                            }
                        } else {
                            assert(cur[pos as int] == point_of(self.recs()[k]));
                        }
                    }
                }
            }
            i4 += 1;
        }
        proof {
            assert(self.recs().subrange(0, n as int) =~= self.recs());
        }

        Analytics { method_distribution, status_distribution, top_endpoints: sorted, timeline }
    }

    /// The analytics view at the current time. The histograms and the
    /// endpoint table do not depend on the clock and hold exactly as at
    /// `get_analytics_at`; of the timeline — whose cut-off does — this much
    /// holds whatever time came back: every point is contributed by a stored
    /// record, and the points ascend by timestamp.
    pub fn get_analytics(&self) -> (r: Analytics)
        ensures
            ({
                let md = r.method_distribution@;
                &&& forall|a: int, b: int|
                    0 <= a < b < md.len() ==> (#[trigger] md[a]).0@ != (#[trigger] md[b]).0@
                &&& forall|a: int|
                    0 <= a < md.len() ==> (#[trigger] md[a]).1 as int == count_method(
                        self.recs(),
                        md[a].0@,
                    ) && count_method(self.recs(), md[a].0@) > 0
                &&& forall|k: int|
                    0 <= k < self.recs().len() ==> method_listed(
                        md,
                        (#[trigger] self.recs()[k]).method@,
                    )
            }),
            ({
                let sd = r.status_distribution@;
                &&& forall|a: int, b: int|
                    0 <= a < b < sd.len() ==> (#[trigger] sd[a]).0 != (#[trigger] sd[b]).0
                &&& forall|a: int|
                    0 <= a < sd.len() ==> (#[trigger] sd[a]).1 as int == count_status(
                        self.recs(),
                        sd[a].0,
                    ) && count_status(self.recs(), sd[a].0) > 0
                &&& forall|k: int|
                    0 <= k < self.recs().len() ==> match (#[trigger] self.recs()[k]).response {
                        Some(resp) => status_listed(sd, resp.status),
                        None => true,
                    }
            }),
            ({
                let te = r.top_endpoints@;
                &&& te.len() <= 10
                &&& forall|a: int, b: int|
                    0 <= a < b < te.len() ==> (#[trigger] te[a]).count >= (#[trigger] te[b]).count
                &&& forall|a: int, b: int|
                    0 <= a < b < te.len() ==> (#[trigger] te[a]).endpoint@
                        != (#[trigger] te[b]).endpoint@
                &&& forall|a: int|
                    0 <= a < te.len() ==> endpoint_entry_correct(self.recs(), #[trigger] te[a])
                &&& forall|k: int|
                    0 <= k < self.recs().len() ==> endpoint_listed(
                        te,
                        crate::endpoint_of((#[trigger] self.recs()[k]).url@),
                    ) || (te.len() == 10 && count_endpoint(
                        self.recs(),
                        crate::endpoint_of(self.recs()[k].url@),
                    ) <= te[9].count)
            }),
            ({
                let tl = r.timeline@;
                &&& forall|a: int, b: int|
                    0 <= a < b < tl.len() ==> (#[trigger] tl[a]).timestamp
                        <= (#[trigger] tl[b]).timestamp
                &&& forall|a: int| 0 <= a < tl.len() ==> point_of_some(self.recs(), #[trigger] tl[a])
            }),
    {
        let now = now_millis();
        let r = self.get_analytics_at(now);
        proof {
            let threshold: u64 = if now >= 3600000 {
                (now - 3600000) as u64
            } else {
                0u64
            };
            assert forall|a: int| 0 <= a < r.timeline@.len() implies point_of_some(
                self.recs(),
                #[trigger] r.timeline@[a],
            ) by {
                assert(point_from(self.recs(), threshold, r.timeline@[a]));
                let k = choose|k: int|
                    0 <= k < self.recs().len() && (#[trigger] self.recs()[k]).timestamp
                        >= threshold && r.timeline@[a] == point_of(self.recs()[k]);
                assert(r.timeline@[a] == point_of(self.recs()[k]));
            }
        }
        r
    }
}

/// A record counts its own method at least once.
proof fn lemma_count_method_at(s: Seq<RecordedRequest>, i: int)
    requires
        0 <= i < s.len(),
    ensures
        count_method(s, s[i].method@) > 0,
    decreases s.len(),
{
    if i == s.len() - 1 {
        assert(s.last() == s[i]);
        lemma_count_method_nonneg(s.drop_last(), s[i].method@);
    } else {
        assert(s.drop_last()[i] == s[i]);
        lemma_count_method_at(s.drop_last(), i);
    }
}

proof fn lemma_count_method_nonneg(s: Seq<RecordedRequest>, m: Seq<char>)
    ensures
        count_method(s, m) >= 0,
    decreases s.len(),
{
    if s.len() > 0 {
        lemma_count_method_nonneg(s.drop_last(), m);
    }
}

/// A record with a response counts its own status at least once.
proof fn lemma_count_status_at(s: Seq<RecordedRequest>, i: int)
    requires
        0 <= i < s.len(),
        s[i].response is Some,
    ensures
        count_status(s, s[i].response.unwrap().status) > 0,
    decreases s.len(),
{
    if i == s.len() - 1 {
        assert(s.last() == s[i]);
        lemma_count_status_nonneg(s.drop_last(), s[i].response.unwrap().status);
    } else {
        assert(s.drop_last()[i] == s[i]);
        lemma_count_status_at(s.drop_last(), i);
    }
}

proof fn lemma_count_status_nonneg(s: Seq<RecordedRequest>, st: u16)
    ensures
        count_status(s, st) >= 0,
    decreases s.len(),
{
    if s.len() > 0 {
        lemma_count_status_nonneg(s.drop_last(), st);
    }
}

/// A record counts its own endpoint at least once.
proof fn lemma_count_endpoint_at(s: Seq<RecordedRequest>, i: int)
    requires
        0 <= i < s.len(),
    ensures
        count_endpoint(s, crate::endpoint_of(s[i].url@)) > 0,
    decreases s.len(),
{
    if i == s.len() - 1 {
        assert(s.last() == s[i]);
        lemma_count_endpoint_nonneg(s.drop_last(), crate::endpoint_of(s[i].url@));
    } else {
        assert(s.drop_last()[i] == s[i]);
        lemma_count_endpoint_at(s.drop_last(), i);
    }
}

proof fn lemma_count_endpoint_nonneg(s: Seq<RecordedRequest>, e: Seq<char>)
    ensures
        count_endpoint(s, e) >= 0,
    decreases s.len(),
{
    if s.len() > 0 {
        lemma_count_endpoint_nonneg(s.drop_last(), e);
    }
}

} // verus!
