//! A developer-facing HTTP intercepting proxy core: rule stores, request
//! matching, sliding-window rate limiting, mock responses, latency injection,
//! response modification, and an in-memory recording store with analytics.
//!
//! The layout follows the request path. [`matcher`] evaluates the predicate
//! every rule kind shares; [`store`] holds rules of any kind under distinct
//! ids. The engines — [`ratelimit`], [`mock`], [`latency`], [`modifier`] —
//! each own a store and decide what happens to a request; [`pipeline`] fixes
//! the order in which they are consulted and builds the responses they call
//! for. [`storage`] and [`recorder`] capture every transaction and serve
//! queries, statistics and analytics; [`control`] routes and parses the
//! management API's requests. [`json`], [`headers`] and [`strutil`] are the
//! data plumbing underneath.
//!
//! Callers that drive this from several tasks wrap each engine in a lock;
//! every mutating operation here takes the receiver exclusively and returns
//! before anything sleeps or touches the network.
use vstd::prelude::*;

pub mod config;
pub mod control;
pub mod headers;
pub mod ids;
pub mod json;
pub mod latency;
pub mod matcher;
pub mod mock;
pub mod modifier;
pub mod pipeline;
pub mod ratelimit;
pub mod recorder;
pub mod storage;
pub mod store;
pub mod strutil;

verus! {

/// Strips the query string from a URL: everything from the first `?` on is
/// removed; a URL without `?` is returned unchanged.
pub fn extract_endpoint(url: &str) -> (r: String)
    ensures
        endpoint_of(url@) == r@,
{
    let uv = strutil::chars_vec(url);
    let kept = strutil::chars_before(&uv, '?');
    strutil::chars_to_string(&kept)
}

/// The endpoint of a URL: its characters up to (not including) the first `?`,
/// or the whole URL when it has none.
pub open spec fn endpoint_of(url: Seq<char>) -> Seq<char> {
    strutil::before_char(url, '?')
}

} // verus!
