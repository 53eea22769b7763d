//! The rate-limit engine: a sliding-window counter per bucket, with an
//! optional burst allowance on top of the steady rate.
//!
//! Time is measured in milliseconds. One check at time `now` first evicts
//! every stamp older than the window, then admits if the remaining count is
//! under `max_requests`, or on the burst budget otherwise; an admission is
//! stamped into the bucket. The burst budget refills whenever the steady
//! rate is honoured again.
use vstd::prelude::*;

use crate::headers::hlookup;
use crate::ids::now_millis;
use crate::matcher::{predicate_holds, predicate_matches, view_method, MatchType};
use crate::store::{has_key, lookup, RuleStore, StoreEntry};

verus! {

/// Which requests share one bucket.
pub enum KeyType {
    Global,
    IpAddress,
    Header { name: String },
    Custom { pattern: String },
}

/// The predicate of a rate-limit rule, and how its buckets are keyed.
pub struct RateLimitMatch {
    pub method: Option<String>,
    pub url_pattern: String,
    pub url_match_type: MatchType,
    pub key_type: KeyType,
}

/// The limit itself: so many requests per window, plus an optional burst.
#[derive(Clone, Copy)]
pub struct RateLimit {
    pub max_requests: u32,
    pub window_seconds: u32,
    pub burst_size: Option<u32>,
}

/// The response sent on a denial.
pub struct RateLimitResponse {
    pub status: u16,
    pub headers: Vec<(String, String)>,
    pub body: String,
    pub delay_ms: Option<u64>,
}

/// A stored rate-limit rule.
pub struct RateLimitRule {
    pub id: String,
    pub name: String,
    pub enabled: bool,
    pub priority: i32,
    pub match_request: RateLimitMatch,
    pub limit: RateLimit,
    pub response: RateLimitResponse,
    pub created_at: u64,
}

/// The fields a caller provides to create a rate-limit rule.
pub struct CreateRateLimitRule {
    pub name: String,
    pub enabled: bool,
    pub priority: i32,
    pub match_request: RateLimitMatch,
    pub limit: RateLimit,
    pub response: RateLimitResponse,
}

/// The fields a caller provides to replace a rate-limit rule.
pub struct UpdateRateLimitRule {
    pub id: String,
    pub name: String,
    pub enabled: bool,
    pub priority: i32,
    pub match_request: RateLimitMatch,
    pub limit: RateLimit,
    pub response: RateLimitResponse,
}

/// What a check reports about the bucket it hit.
pub struct RateLimitInfo {
    pub limit: u32,
    pub remaining: u32,
    pub reset_in_seconds: u64,
    pub retry_after: Option<u64>,
}

/// One bucket: the stamps of recent admissions and the burst budget used.
pub struct RateLimitBucket {
    pub requests: Vec<u64>,
    pub burst_used: u32,
}

/// Counts of the rate limiter's buckets.
pub struct BucketStats {
    pub total_buckets: usize,
    pub active_limits: usize,
}

/// The window in milliseconds.
pub open spec fn bucket_window_ms(limit: RateLimit) -> int {
    limit.window_seconds as int * 1000
}

/// The burst allowance; absent means none.
pub open spec fn burst_cap(limit: RateLimit) -> u32 {
    match limit.burst_size {
        Some(b) => b,
        None => 0,
    }
}

/// A stamp still counts at time `now` when it is less than a window old.
/// (A stamp in the future also counts; it cannot be older than the window.)
pub open spec fn in_window(t: u64, now: u64, w: int) -> bool {
    now - t < w
}

/// The stamps of `s` still in the window at `now`, in order.
pub open spec fn kept_stamps(s: Seq<u64>, now: u64, w: int) -> Seq<u64>
    decreases s.len(),
{
    if s.len() == 0 {
        s
    } else if in_window(s[0], now, w) {
        seq![s[0]] + kept_stamps(s.drop_first(), now, w)
    } else {
        kept_stamps(s.drop_first(), now, w)
    }
}

/// What one check at time `now` does to a bucket `(stamps, burst_used)`:
/// the new stamps, the new burst counter, and whether it was admitted.
pub open spec fn bucket_step(s: Seq<u64>, burst: u32, limit: RateLimit, now: u64) -> (
    Seq<u64>,
    u32,
    bool,
) {
    let kept = kept_stamps(s, now, bucket_window_ms(limit));
    if kept.len() < limit.max_requests {
        (kept.push(now), 0u32, true)
    } else if burst < burst_cap(limit) {
        (kept.push(now), (burst + 1) as u32, true)
    } else {
        (kept, burst, false)
    }
}

/// A bucket never holds more stamps than the limit plus the burst it used.
pub open spec fn bucket_inv(s: Seq<u64>, burst: u32, limit: RateLimit) -> bool {
    s.len() <= limit.max_requests + burst && burst <= burst_cap(limit)
}

/// The seconds until the oldest stamp leaves the window (the whole window
/// when no stamp remains), as reported after a check.
pub open spec fn reset_secs(s: Seq<u64>, now: u64, window_seconds: u32) -> int {
    if s.len() == 0 {
        window_seconds as int
    } else {
        let elapsed = if s[0] > now {
            0int
        } else {
            (now - s[0]) / 1000
        };
        if elapsed > window_seconds as int {
            0
        } else {
            window_seconds - elapsed
        }
    }
}

/// Requests remaining before the steady rate is reached.
pub open spec fn remaining_of(kept_len: int, max: u32) -> int {
    if kept_len >= max {
        0
    } else {
        max - kept_len
    }
}

proof fn lemma_kept_len_le(s: Seq<u64>, now: u64, w: int)
    ensures
        kept_stamps(s, now, w).len() <= s.len(),
    decreases s.len(),
{
    if s.len() > 0 {
        lemma_kept_len_le(s.drop_first(), now, w);
    }
}

/// Evicting at a later time after evicting at an earlier one is the same as
/// evicting at the later time alone.
proof fn lemma_kept_compose(s: Seq<u64>, t1: u64, t2: u64, w: int)
    requires
        t1 <= t2,
    ensures
        kept_stamps(kept_stamps(s, t1, w), t2, w) == kept_stamps(s, t2, w),
    decreases s.len(),
{
    if s.len() == 0 {
    } else {
        lemma_kept_compose(s.drop_first(), t1, t2, w);
        if in_window(s[0], t1, w) {
            let k1 = seq![s[0]] + kept_stamps(s.drop_first(), t1, w);
            assert(k1[0] == s[0]);
            assert(k1.drop_first() =~= kept_stamps(s.drop_first(), t1, w));
            if in_window(s[0], t2, w) {
                assert(kept_stamps(k1, t2, w) =~= seq![s[0]] + kept_stamps(
                    kept_stamps(s.drop_first(), t1, w),
                    t2,
                    w,
                ));
            }
        } else {
            assert(!in_window(s[0], t2, w));
        }
    }
}

/// A stamp pushed while in the window survives the eviction.
proof fn lemma_kept_push_in(s: Seq<u64>, x: u64, now: u64, w: int)
    requires
        in_window(x, now, w),
    ensures
        kept_stamps(s.push(x), now, w) == kept_stamps(s, now, w).push(x),
    decreases s.len(),
{
    let t = s.push(x);
    if s.len() == 0 {
        assert(t[0] == x);
        assert(t.drop_first() =~= Seq::<u64>::empty());
        assert(kept_stamps(t.drop_first(), now, w) =~= Seq::<u64>::empty());
        assert(kept_stamps(t, now, w) == seq![x] + kept_stamps(t.drop_first(), now, w));
        assert(kept_stamps(t, now, w) =~= Seq::<u64>::empty().push(x));
        assert(kept_stamps(s, now, w) =~= Seq::<u64>::empty());
        assert(kept_stamps(s, now, w).push(x) =~= Seq::<u64>::empty().push(x));
    } else {
        assert(t[0] == s[0]);
        assert(t.drop_first() =~= s.drop_first().push(x));
        lemma_kept_push_in(s.drop_first(), x, now, w);
        if in_window(s[0], now, w) {
            assert(kept_stamps(t, now, w) =~= (seq![s[0]] + kept_stamps(
                s.drop_first(),
                now,
                w,
            )).push(x));
        }
    }
}

/// One check keeps the bucket within its bound.
proof fn lemma_step_inv(s: Seq<u64>, burst: u32, limit: RateLimit, now: u64)
    requires
        bucket_inv(s, burst, limit),
    ensures
        ({
            let (s2, b2, a) = bucket_step(s, burst, limit, now);
            bucket_inv(s2, b2, limit) && s2.len() <= limit.max_requests + burst_cap(limit)
        }),
{
    lemma_kept_len_le(s, now, bucket_window_ms(limit));
}

/// A whole run of checks from a starting bucket: the final stamps, the final
/// burst counter, and for each check whether it was admitted.
pub open spec fn run_bucket_from(
    s0: Seq<u64>,
    b0: u32,
    times: Seq<u64>,
    limit: RateLimit,
) -> (Seq<u64>, u32, Seq<bool>)
    decreases times.len(),
{
    if times.len() == 0 {
        (s0, b0, Seq::empty())
    } else {
        let (s, b, fl) = run_bucket_from(s0, b0, times.drop_last(), limit);
        let (s2, b2, a) = bucket_step(s, b, limit, times.last());
        (s2, b2, fl.push(a))
    }
}

/// A run of checks against a fresh bucket.
pub open spec fn run_bucket(times: Seq<u64>, limit: RateLimit) -> (Seq<u64>, u32, Seq<bool>) {
    run_bucket_from(Seq::empty(), 0u32, times, limit)
}

/// The times of the admitted checks, in order.
pub open spec fn admitted_times(times: Seq<u64>, flags: Seq<bool>) -> Seq<u64>
    decreases times.len(),
{
    if times.len() == 0 || flags.len() != times.len() {
        Seq::empty()
    } else if flags.last() {
        admitted_times(times.drop_last(), flags.drop_last()).push(times.last())
    } else {
        admitted_times(times.drop_last(), flags.drop_last())
    }
}

/// How many of the stamps lie in the rolling window `(t0 - w, t0]`.
pub open spec fn count_rolling(s: Seq<u64>, t0: u64, w: int) -> int
    decreases s.len(),
{
    if s.len() == 0 {
        0
    } else {
        count_rolling(s.drop_last(), t0, w) + (if s.last() <= t0 && t0 - s.last() < w {
            1int
        } else {
            0int
        })
    }
}

/// Stamps in the rolling window ending at `t0` all survive an eviction at
/// any earlier time `tn`, so the rolling count is bounded by the kept count.
proof fn lemma_rolling_le_kept(s: Seq<u64>, t0: u64, tn: u64, w: int)
    requires
        tn <= t0,
    ensures
        count_rolling(s, t0, w) <= kept_stamps(s, tn, w).len(),
    decreases s.len(),
{
    if s.len() == 0 {
    } else {
        let d = s.drop_last();
        lemma_rolling_le_kept(d, t0, tn, w);
        assert(s =~= d.push(s.last()));
        if in_window(s.last(), tn, w) {
            lemma_kept_push_in(d, s.last(), tn, w);
        } else {
            assert(kept_stamps(d.push(s.last()), tn, w) =~= kept_stamps(d, tn, w)) by {
                lemma_kept_push_out(d, s.last(), tn, w);
            }
            assert(!(s.last() <= t0 && t0 - s.last() < w));
        }
        lemma_kept_len_le(s, tn, w);
    }
}

/// A stamp pushed while out of the window is evicted.
proof fn lemma_kept_push_out(s: Seq<u64>, x: u64, now: u64, w: int)
    requires
        !in_window(x, now, w),
    ensures
        kept_stamps(s.push(x), now, w) == kept_stamps(s, now, w),
    decreases s.len(),
{
    let t = s.push(x);
    if s.len() == 0 {
        assert(t[0] == x);
        assert(t.drop_first() =~= Seq::<u64>::empty());
        assert(kept_stamps(t.drop_first(), now, w) =~= Seq::<u64>::empty());
        assert(kept_stamps(t, now, w) == kept_stamps(t.drop_first(), now, w));
        assert(kept_stamps(s, now, w) =~= Seq::<u64>::empty());
    } else {
        assert(t[0] == s[0]);
        assert(t.drop_first() =~= s.drop_first().push(x));
        lemma_kept_push_out(s.drop_first(), x, now, w);
        if in_window(s[0], now, w) {
            assert(kept_stamps(t, now, w) =~= seq![s[0]] + kept_stamps(
                s.drop_first().push(x),
                now,
                w,
            ));
            assert(kept_stamps(s, now, w) =~= seq![s[0]] + kept_stamps(s.drop_first(), now, w));
        }
    }
}

/// After a run at nondecreasing times, the bucket holds exactly the admitted
/// times still in the window of the last check, and stays within its bound.
proof fn lemma_run_characterization(times: Seq<u64>, limit: RateLimit)
    requires
        forall|i: int, j: int| 0 <= i <= j < times.len() ==> times[i] <= times[j],
        limit.window_seconds >= 1,
        times.len() > 0,
    ensures
        ({
            let (s, b, fl) = run_bucket(times, limit);
            &&& fl.len() == times.len()
            &&& bucket_inv(s, b, limit)
            &&& s == kept_stamps(
                admitted_times(times, fl),
                times.last(),
                bucket_window_ms(limit),
            )
        }),
    decreases times.len(),
{
    let w = bucket_window_ms(limit);
    let (s, b, fl) = run_bucket(times, limit);
    let prior = times.drop_last();
    let (sp, bp, flp) = run_bucket(prior, limit);
    let tn = times.last();
    if times.len() == 1 {
        assert(prior.len() == 0);
        assert(sp =~= Seq::<u64>::empty());
        assert(flp =~= Seq::<bool>::empty());
        assert(kept_stamps(sp, tn, w) =~= Seq::<u64>::empty());
        assert(bucket_inv(Seq::<u64>::empty(), 0u32, limit));
        lemma_step_inv(sp, bp, limit, tn);
        let a = bucket_step(sp, bp, limit, tn).2;
        assert(fl =~= Seq::<bool>::empty().push(a));
        assert(fl.drop_last() =~= Seq::<bool>::empty());
        assert(times.drop_last() =~= Seq::<u64>::empty());
        assert(admitted_times(Seq::<u64>::empty(), Seq::<bool>::empty()) == Seq::<u64>::empty());
        assert(fl.last() == a);
        assert(admitted_times(times, fl) == if a {
            Seq::<u64>::empty().push(tn)
        } else {
            Seq::<u64>::empty()
        });
        if a {
            assert(admitted_times(times, fl) =~= Seq::<u64>::empty().push(tn));
            assert(s =~= kept_stamps(sp, tn, w).push(tn));
            assert(in_window(tn, tn, w));
            lemma_kept_push_in(Seq::<u64>::empty(), tn, tn, w);
            assert(s == kept_stamps(admitted_times(times, fl), tn, w));
        } else {
            assert(admitted_times(times, fl) =~= Seq::<u64>::empty());
            assert(s =~= Seq::<u64>::empty());
        }
    } else {
        assert(forall|i: int, j: int|
            0 <= i <= j < prior.len() ==> prior[i] <= prior[j]);
        lemma_run_characterization(prior, limit);
        let tp = prior.last();
        assert(tp <= tn);
        let ap = admitted_times(prior, flp);
        assert(sp == kept_stamps(ap, tp, w));
        lemma_kept_compose(ap, tp, tn, w);
        assert(kept_stamps(sp, tn, w) == kept_stamps(ap, tn, w));
        lemma_step_inv(sp, bp, limit, tn);
        let a = bucket_step(sp, bp, limit, tn).2;
        assert(fl =~= flp.push(a));
        assert(fl.drop_last() =~= flp);
        assert(times.drop_last() =~= prior);
        if a {
            assert(admitted_times(times, fl) =~= ap.push(tn));
            assert(in_window(tn, tn, w));
            lemma_kept_push_in(ap, tn, tn, w);
            assert(s == kept_stamps(sp, tn, w).push(tn));
            assert(kept_stamps(ap.push(tn), tn, w) == kept_stamps(ap, tn, w).push(tn));
        } else {
            assert(admitted_times(times, fl) =~= ap);
            assert(s == kept_stamps(sp, tn, w));
        }
    }
}

/// Sliding-window safety: over any run of checks at nondecreasing times
/// against one bucket, the number of admitted requests whose times lie in
/// any rolling window of the configured length is at most
/// `max_requests + burst_size`.
pub proof fn lemma_sliding_window_safety(times: Seq<u64>, limit: RateLimit, t0: u64)
    requires
        forall|i: int, j: int| 0 <= i <= j < times.len() ==> times[i] <= times[j],
        limit.window_seconds >= 1,
    ensures
        ({
            let (s, b, fl) = run_bucket(times, limit);
            count_rolling(admitted_times(times, fl), t0, bucket_window_ms(limit))
                <= limit.max_requests + burst_cap(limit)
        }),
    decreases times.len(),
{
    let w = bucket_window_ms(limit);
    let (s, b, fl) = run_bucket(times, limit);
    if times.len() == 0 {
        assert(admitted_times(times, fl) =~= Seq::<u64>::empty());
    } else {
        lemma_run_characterization(times, limit);
        let adm = admitted_times(times, fl);
        let tn = times.last();
        let prior = times.drop_last();
        let (sp, bp, flp) = run_bucket(prior, limit);
        assert(fl.drop_last() =~= flp);
        assert(times.drop_last() =~= prior);
        let ap = admitted_times(prior, flp);
        if tn <= t0 {
            lemma_rolling_le_kept(adm, t0, tn, w);
            assert(count_rolling(adm, t0, w) <= kept_stamps(adm, tn, w).len());
            assert(kept_stamps(adm, tn, w) == s);
            assert(bucket_inv(s, b, limit));
        } else {
            assert(forall|i: int, j: int|
                0 <= i <= j < prior.len() ==> prior[i] <= prior[j]);
            lemma_sliding_window_safety(prior, limit, t0);
            let a = bucket_step(sp, bp, limit, tn).2;
            if a {
                assert(adm =~= ap.push(tn));
                assert(adm.drop_last() =~= ap);
                assert(adm.last() == tn);
                assert(!(tn <= t0));
                assert(count_rolling(adm, t0, w) == count_rolling(ap, t0, w));
            } else {
                assert(adm =~= ap);
            }
        }
    }
}

/// Recovery: once every old stamp is at least a window older than the next
/// check, a bucket admits `max_requests` further checks in a row, whatever
/// the burst counter holds.
pub proof fn lemma_rate_limit_recovery(
    s0: Seq<u64>,
    b0: u32,
    times: Seq<u64>,
    limit: RateLimit,
)
    requires
        forall|i: int, j: int| 0 <= i <= j < times.len() ==> times[i] <= times[j],
        limit.window_seconds >= 1,
        0 < times.len() <= limit.max_requests,
        forall|i: int|
            0 <= i < s0.len() ==> #[trigger] s0[i] + bucket_window_ms(limit) <= times[0],
    ensures
        ({
            let (s, b, fl) = run_bucket_from(s0, b0, times, limit);
            &&& fl.len() == times.len()
            &&& forall|i: int| 0 <= i < fl.len() ==> fl[i] == true
            &&& s.len() <= times.len()
        }),
    decreases times.len(),
{
    let w = bucket_window_ms(limit);
    let (s, b, fl) = run_bucket_from(s0, b0, times, limit);
    let prior = times.drop_last();
    let tn = times.last();
    if times.len() == 1 {
        assert(prior =~= Seq::<u64>::empty());
        assert(run_bucket_from(s0, b0, prior, limit) == (s0, b0, Seq::<bool>::empty()));
        assert(forall|i: int|
            0 <= i < s0.len() ==> !in_window(#[trigger] s0[i], tn, w));
        lemma_kept_all_out(s0, tn, w);
        assert(kept_stamps(s0, tn, w).len() == 0);
        assert(bucket_step(s0, b0, limit, tn).2 == true);
        assert((s, b, fl) == (
            bucket_step(s0, b0, limit, tn).0,
            bucket_step(s0, b0, limit, tn).1,
            Seq::<bool>::empty().push(bucket_step(s0, b0, limit, tn).2),
        ));
        assert(fl =~= Seq::<bool>::empty().push(true));
        assert(s == kept_stamps(s0, tn, w).push(tn));
        lemma_kept_len_le(s0, tn, w);
    } else {
        assert(forall|i: int, j: int|
            0 <= i <= j < prior.len() ==> prior[i] <= prior[j]);
        assert(prior[0] == times[0]);
        lemma_rate_limit_recovery(s0, b0, prior, limit);
        let (sp, bp, flp) = run_bucket_from(s0, b0, prior, limit);
        assert(sp.len() <= prior.len());
        lemma_kept_len_le(sp, tn, w);
        assert(kept_stamps(sp, tn, w).len() <= prior.len());
        assert(prior.len() < limit.max_requests || prior.len() == limit.max_requests);
        assert(prior.len() <= limit.max_requests - 1);
        assert(bucket_step(sp, bp, limit, tn).2 == true);
        assert(fl =~= flp.push(true));
        assert forall|i: int| 0 <= i < fl.len() implies fl[i] == true by {
            if i < flp.len() {
                assert(flp[i] == true);
            }
        }
    }
}

/// Stamps all inside the window all survive the eviction.
proof fn lemma_kept_all_in(s: Seq<u64>, now: u64, w: int)
    requires
        forall|i: int| 0 <= i < s.len() ==> in_window(#[trigger] s[i], now, w),
    ensures
        kept_stamps(s, now, w) == s,
    decreases s.len(),
{
    if s.len() > 0 {
        assert(in_window(s[0], now, w));
        assert(forall|i: int|
            0 <= i < s.drop_first().len() ==> in_window(#[trigger] s.drop_first()[i], now, w));
        lemma_kept_all_in(s.drop_first(), now, w);
        assert(seq![s[0]] + s.drop_first() =~= s);
    }
}

/// With every check admitted, the admitted times are all the times.
proof fn lemma_all_true_admitted(times: Seq<u64>, flags: Seq<bool>)
    requires
        flags.len() == times.len(),
        forall|i: int| 0 <= i < flags.len() ==> flags[i] == true,
    ensures
        admitted_times(times, flags) == times,
    decreases times.len(),
{
    if times.len() > 0 {
        assert(forall|i: int|
            0 <= i < flags.drop_last().len() ==> flags.drop_last()[i] == true);
        lemma_all_true_admitted(times.drop_last(), flags.drop_last());
        assert(flags.last() == true);
        assert(times.drop_last().push(times.last()) =~= times);
    }
}

/// Saturation: from a fresh bucket without burst, checks at nondecreasing
/// times that all fall within one window admit exactly `max_requests` and
/// deny the next one.
pub proof fn lemma_rate_limit_saturation(times: Seq<u64>, limit: RateLimit)
    requires
        forall|i: int, j: int| 0 <= i <= j < times.len() ==> times[i] <= times[j],
        limit.window_seconds >= 1,
        burst_cap(limit) == 0,
        times.len() == limit.max_requests + 1,
        times.last() - times[0] < bucket_window_ms(limit),
    ensures
        ({
            let (s, b, fl) = run_bucket(times, limit);
            &&& fl.len() == times.len()
            &&& forall|i: int| 0 <= i < times.len() - 1 ==> fl[i] == true
            &&& fl[times.len() - 1] == false
        }),
{
    let w = bucket_window_ms(limit);
    let (s, b, fl) = run_bucket(times, limit);
    let prior = times.drop_last();
    let tn = times.last();
    let (sp, bp, flp) = run_bucket(prior, limit);
    assert(fl =~= flp.push(bucket_step(sp, bp, limit, tn).2));
    if limit.max_requests == 0 {
        assert(prior =~= Seq::<u64>::empty());
        assert(sp =~= Seq::<u64>::empty());
        assert(flp =~= Seq::<bool>::empty());
        lemma_kept_len_le(sp, tn, w);
        assert(kept_stamps(sp, tn, w).len() == 0);
        assert(!bucket_step(sp, bp, limit, tn).2);
    } else {
        assert(forall|i: int, j: int|
            0 <= i <= j < prior.len() ==> prior[i] <= prior[j]);
        lemma_rate_limit_recovery(Seq::<u64>::empty(), 0u32, prior, limit);
        assert(forall|i: int| 0 <= i < flp.len() ==> flp[i] == true);
        lemma_run_characterization(prior, limit);
        lemma_all_true_admitted(prior, flp);
        assert(sp == kept_stamps(prior, prior.last(), w));
        lemma_kept_compose(prior, prior.last(), tn, w);
        assert(kept_stamps(sp, tn, w) == kept_stamps(prior, tn, w));
        assert forall|i: int| 0 <= i < prior.len() implies in_window(
            #[trigger] prior[i],
            tn,
            w,
        ) by {
            assert(times[0] <= prior[i]);
            assert(prior[i] == times[i]);
        }
        lemma_kept_all_in(prior, tn, w);
        assert(kept_stamps(sp, tn, w).len() == limit.max_requests);
        assert(!bucket_step(sp, bp, limit, tn).2);
    }
    assert forall|i: int| 0 <= i < times.len() - 1 implies fl[i] == true by {
        assert(fl[i] == flp[i]);
    }
}

/// Stamps all older than the window are all evicted.
proof fn lemma_kept_all_out(s: Seq<u64>, now: u64, w: int)
    requires
        forall|i: int| 0 <= i < s.len() ==> !in_window(#[trigger] s[i], now, w),
    ensures
        kept_stamps(s, now, w).len() == 0,
    decreases s.len(),
{
    if s.len() > 0 {
        assert(!in_window(s[0], now, w));
        assert(forall|i: int|
            0 <= i < s.drop_first().len() ==> !in_window(#[trigger] s.drop_first()[i], now, w));
        lemma_kept_all_out(s.drop_first(), now, w);
    }
}

impl RateLimitBucket {
    pub fn new() -> (r: Self)
        ensures
            r.requests@ == Seq::<u64>::empty(),
            r.burst_used == 0,
    {
        RateLimitBucket { requests: Vec::new(), burst_used: 0 }
    }

    /// One check at time `now_ms`: evicts stamps older than the window,
    /// admits under the limit or on the burst budget, stamps the admission,
    /// and reports the bucket's state. Exactly `bucket_step` on the model.
    pub fn is_allowed(&mut self, limit: &RateLimit, now_ms: u64) -> (r: (bool, RateLimitInfo))
        ensures
            ({
                let (s2, b2, a) = bucket_step(
                    old(self).requests@,
                    old(self).burst_used,
                    *limit,
                    now_ms,
                );
                &&& final(self).requests@ == s2
                &&& final(self).burst_used == b2
                &&& r.0 == a
                &&& r.1.limit == limit.max_requests
                &&& r.1.remaining as int == remaining_of(
                    kept_stamps(
                        old(self).requests@,
                        now_ms,
                        bucket_window_ms(*limit),
                    ).len() as int,
                    limit.max_requests,
                )
                &&& r.1.reset_in_seconds as int == reset_secs(s2, now_ms, limit.window_seconds)
                &&& r.1.retry_after == if a {
                    None::<u64>
                } else {
                    Some(r.1.reset_in_seconds)
                }
            }),
    {
        let w_ms: u64 = (limit.window_seconds as u64) * 1000;
        let ghost w = bucket_window_ms(*limit);
        proof {
            assert(w_ms as int == w);
        }

        // evict stamps that have left the window
        let n0 = self.requests.len();
        let mut kept: Vec<u64> = Vec::new();
        let mut i: usize = 0;
        proof {
            assert(self.requests@.skip(0) =~= self.requests@);
        }
        while i < n0
            invariant
                i <= n0,
                n0 == self.requests@.len(),
                w == w_ms as int,
                kept_stamps(self.requests@, now_ms, w) == kept@ + kept_stamps(
                    self.requests@.skip(i as int),
                    now_ms,
                    w,
                ),
            decreases n0 - i,
        {
            let t = self.requests[i];
            proof {
                assert(self.requests@.skip(i as int)[0] == t);
                assert(self.requests@.skip(i as int).drop_first() =~= self.requests@.skip(i + 1));
            }
            if t > now_ms || now_ms - t < w_ms {
                proof {
                    assert(in_window(t, now_ms, w));
                    assert(seq![t] + kept_stamps(self.requests@.skip(i + 1), now_ms, w)
                        =~= kept_stamps(self.requests@.skip(i as int), now_ms, w));
                }
                kept.push(t);
                proof {
                    assert(kept@ + kept_stamps(self.requests@.skip(i + 1), now_ms, w)
                        =~= kept_stamps(self.requests@, now_ms, w));
                }
            } else {
                proof {
                    assert(!in_window(t, now_ms, w));
                }
            }
            i += 1;
        }
        proof {
            assert(self.requests@.skip(n0 as int) =~= Seq::<u64>::empty());
            assert(kept@ =~= kept_stamps(self.requests@, now_ms, w));
        }

        let count = kept.len();
        let max = limit.max_requests;
        let remaining: u32 = if count >= max as usize {
            0
        } else {
            max - count as u32
        };
        let burst_size: u32 = match limit.burst_size {
            Some(b) => b,
            None => 0,
        };

        let under_limit = count < max as usize;
        let can_burst = !under_limit && self.burst_used < burst_size;
        let allowed = under_limit || can_burst;

        if allowed {
            kept.push(now_ms);
            if can_burst {
                self.burst_used = self.burst_used + 1;
            } else {
                self.burst_used = 0;
            }
        }
        self.requests = kept;

        // seconds until the oldest remaining stamp leaves the window
        let reset_in_seconds: u64 = if self.requests.len() == 0 {
            limit.window_seconds as u64
        } else {
            let oldest = self.requests[0];
            let elapsed_s = now_ms.saturating_sub(oldest) / 1000;
            (limit.window_seconds as u64).saturating_sub(elapsed_s)
        };

        (
            allowed,
            RateLimitInfo {
                limit: max,
                remaining,
                reset_in_seconds,
                retry_after: if !allowed {
                    Some(reset_in_seconds)
                } else {
                    None
                },
            },
        )
    }
}


/// Rate-limit rules that agree field for field.
pub open spec fn same_rl_response(a: RateLimitResponse, b: RateLimitResponse) -> bool {
    a.status == b.status && a.headers@ == b.headers@ && a.body == b.body && a.delay_ms
        == b.delay_ms
}

pub open spec fn same_rl(a: RateLimitRule, b: RateLimitRule) -> bool {
    &&& a.id == b.id
    &&& a.name == b.name
    &&& a.enabled == b.enabled
    &&& a.priority == b.priority
    &&& a.match_request == b.match_request
    &&& a.limit == b.limit
    &&& same_rl_response(a.response, b.response)
    &&& a.created_at == b.created_at
}

/// Some rule in `s` agrees with `m` field for field.
pub open spec fn some_same_rl(s: Seq<RateLimitRule>, m: RateLimitRule) -> bool {
    exists|k: int| 0 <= k < s.len() && same_rl(m, #[trigger] s[k])
}

/// Whether a rule's predicate accepts the request.
pub open spec fn rl_matches(rule: RateLimitRule, method: Seq<char>, url: Seq<char>) -> bool {
    predicate_holds(
        view_method(&rule.match_request.method),
        rule.match_request.url_match_type,
        rule.match_request.url_pattern@,
        method,
        url,
    )
}

impl KeyType {
    pub fn clone_key(&self) -> (r: Self)
        ensures
            r == *self,
    {
        match self {
            KeyType::Global => KeyType::Global,
            KeyType::IpAddress => KeyType::IpAddress,
            KeyType::Header { name } => KeyType::Header { name: name.clone() },
            KeyType::Custom { pattern } => KeyType::Custom { pattern: pattern.clone() },
        }
    }
}

impl RateLimitMatch {
    pub fn clone_match(&self) -> (r: Self)
        ensures
            r == *self,
    {
        RateLimitMatch {
            method: self.method.clone(),
            url_pattern: self.url_pattern.clone(),
            url_match_type: self.url_match_type,
            key_type: self.key_type.clone_key(),
        }
    }
}

impl RateLimitResponse {
    pub fn clone_response(&self) -> (r: Self)
        ensures
            same_rl_response(r, *self),
    {
        RateLimitResponse {
            status: self.status,
            headers: crate::headers::clone_headers(&self.headers),
            body: self.body.clone(),
            delay_ms: self.delay_ms,
        }
    }
}

impl RateLimitRule {
    pub fn clone_rule(&self) -> (r: Self)
        ensures
            same_rl(r, *self),
    {
        RateLimitRule {
            id: self.id.clone(),
            name: self.name.clone(),
            enabled: self.enabled,
            priority: self.priority,
            match_request: self.match_request.clone_match(),
            limit: self.limit,
            response: self.response.clone_response(),
            created_at: self.created_at,
        }
    }

    /// Evaluates this rule's predicate against a request.
    pub fn matches(&self, method: &str, url: &str) -> (r: bool)
        ensures
            r == rl_matches(*self, method@, url@),
    {
        predicate_matches(
            &self.match_request.method,
            self.match_request.url_match_type,
            self.match_request.url_pattern.as_str(),
            method,
            url,
        )
    }
}

impl StoreEntry for RateLimitRule {
    open spec fn key(&self) -> Seq<char> {
        self.id@
    }

    open spec fn prio(&self) -> int {
        self.priority as int
    }

    open spec fn active(&self) -> bool {
        self.enabled
    }

    open spec fn with_active(&self, b: bool) -> Self {
        RateLimitRule { enabled: b, ..*self }
    }

    proof fn with_active_props(&self, b: bool) {
    }

    fn key_ref(&self) -> &String {
        &self.id
    }

    fn prio_val(&self) -> i32 {
        self.priority
    }

    fn enabled_val(&self) -> bool {
        self.enabled
    }

    fn set_active(&mut self, b: bool) {
        self.enabled = b;
    }
}

/// `j` is the rule the check uses: enabled, matching, of maximal priority,
/// and the earliest such rule in store order.
pub open spec fn is_best_rl(
    rs: Seq<RateLimitRule>,
    j: int,
    method: Seq<char>,
    url: Seq<char>,
) -> bool {
    &&& 0 <= j < rs.len()
    &&& rs[j].enabled
    &&& rl_matches(rs[j], method, url)
    &&& forall|k: int|
        0 <= k < rs.len() && (#[trigger] rs[k]).enabled && rl_matches(rs[k], method, url)
            ==> rs[k].priority <= rs[j].priority
    &&& forall|k: int|
        0 <= k < j && (#[trigger] rs[k]).enabled && rl_matches(rs[k], method, url)
            ==> rs[k].priority < rs[j].priority
}

/// At most one index is the best rule.
pub proof fn lemma_best_rl_unique(
    rs: Seq<RateLimitRule>,
    a: int,
    b: int,
    method: Seq<char>,
    url: Seq<char>,
)
    requires
        is_best_rl(rs, a, method, url),
        is_best_rl(rs, b, method, url),
    ensures
        a == b,
{
    if a < b {
        assert(rs[a].priority < rs[b].priority);
        assert(rs[b].priority <= rs[a].priority);
    }
    if b < a {
        assert(rs[b].priority < rs[a].priority);
        assert(rs[a].priority <= rs[b].priority);
    }
}

/// The bucket model the check starts from: the stored bucket, or a fresh one.
pub open spec fn bucket_model_of(
    bs: Seq<(String, RateLimitBucket)>,
    key: Seq<char>,
) -> (Seq<u64>, u32) {
    match blookup(bs, key) {
        Some(p) => p,
        None => (Seq::<u64>::empty(), 0u32),
    }
}

/// Whether a check at `now` against this state would deny the request.
pub open spec fn rl_denies(
    rs: Seq<RateLimitRule>,
    bs: Seq<(String, RateLimitBucket)>,
    method: Seq<char>,
    url: Seq<char>,
    client: Seq<char>,
    headers: Seq<(String, String)>,
    now: u64,
) -> bool {
    exists|j: int|
        #![trigger rs[j]]
        is_best_rl(rs, j, method, url) && !bucket_step(
            bucket_model_of(bs, rl_bucket_key(rs[j], client, headers)).0,
            bucket_model_of(bs, rl_bucket_key(rs[j], client, headers)).1,
            rs[j].limit,
            now,
        ).2
}

/// The scope part of a bucket key, decided by the rule's key type.
pub open spec fn scope_of(
    kt: KeyType,
    client: Seq<char>,
    headers: Seq<(String, String)>,
) -> Seq<char> {
    match kt {
        KeyType::Global => ":global"@,
        KeyType::IpAddress => ":ip:"@ + client,
        KeyType::Header { name } => ":header:"@ + name@ + ":"@ + (match hlookup(headers, name@) {
            Some(v) => v,
            None => "unknown"@,
        }),
        KeyType::Custom { pattern } => ":custom:"@ + pattern@,
    }
}

/// The bucket key a rule assigns to a request: the rule's id and a scope.
pub open spec fn rl_bucket_key(
    rule: RateLimitRule,
    client: Seq<char>,
    headers: Seq<(String, String)>,
) -> Seq<char> {
    rule.id@ + scope_of(rule.match_request.key_type, client, headers)
}

/// The model of the first bucket under key `k`: its stamps and burst counter.
pub open spec fn blookup(bs: Seq<(String, RateLimitBucket)>, k: Seq<char>) -> Option<
    (Seq<u64>, u32),
>
    decreases bs.len(),
{
    if bs.len() == 0 {
        None
    } else if bs[0].0@ == k {
        Some((bs[0].1.requests@, bs[0].1.burst_used))
    } else {
        blookup(bs.drop_first(), k)
    }
}

/// Replacing the first bucket with key `k` changes that key's model alone.
proof fn lemma_blookup_update(
    bs: Seq<(String, RateLimitBucket)>,
    i: int,
    p: (String, RateLimitBucket),
)
    requires
        0 <= i < bs.len(),
        forall|j: int| 0 <= j < i ==> (#[trigger] bs[j]).0@ != p.0@,
        bs[i].0@ == p.0@,
    ensures
        blookup(bs.update(i, p), p.0@) == Some((p.1.requests@, p.1.burst_used)),
        forall|k: Seq<char>|
            k != p.0@ ==> #[trigger] blookup(bs.update(i, p), k) == blookup(bs, k),
    decreases bs.len(),
{
    let t = bs.update(i, p);
    if i == 0 {
        assert(t[0] == p);
        assert(t.drop_first() =~= bs.drop_first());
        assert forall|k: Seq<char>| k != p.0@ implies #[trigger] blookup(t, k) == blookup(
            bs,
            k,
        ) by {
            assert(blookup(t, k) == blookup(t.drop_first(), k));
            assert(blookup(bs, k) == blookup(bs.drop_first(), k));
        }
    } else {
        assert(t[0] == bs[0]);
        assert(t.drop_first() =~= bs.drop_first().update(i - 1, p));
        assert(forall|j: int|
            0 <= j < i - 1 ==> (#[trigger] bs.drop_first()[j]).0@ != p.0@);
        lemma_blookup_update(bs.drop_first(), i - 1, p);
        assert(bs[0].0@ != p.0@);
        assert(blookup(t, p.0@) == blookup(t.drop_first(), p.0@));
        assert forall|k: Seq<char>| k != p.0@ implies #[trigger] blookup(t, k) == blookup(
            bs,
            k,
        ) by {
            if bs[0].0@ == k {
            } else {
                assert(blookup(t, k) == blookup(t.drop_first(), k));
                assert(blookup(bs, k) == blookup(bs.drop_first(), k));
            }
        }
    }
}

/// Appending a bucket with a key not yet present adds that key alone.
proof fn lemma_blookup_push(bs: Seq<(String, RateLimitBucket)>, p: (String, RateLimitBucket))
    requires
        blookup(bs, p.0@) is None,
    ensures
        blookup(bs.push(p), p.0@) == Some((p.1.requests@, p.1.burst_used)),
        forall|k: Seq<char>|
            k != p.0@ ==> #[trigger] blookup(bs.push(p), k) == blookup(bs, k),
    decreases bs.len(),
{
    let t = bs.push(p);
    if bs.len() == 0 {
        assert(t[0] == p);
        assert(t.drop_first() =~= Seq::<(String, RateLimitBucket)>::empty());
        assert forall|k: Seq<char>| k != p.0@ implies #[trigger] blookup(t, k) == blookup(
            bs,
            k,
        ) by {
            assert(blookup(t, k) == blookup(t.drop_first(), k));
            assert(blookup(t.drop_first(), k) == None::<(Seq<u64>, u32)>);
        }
    } else {
        assert(t[0] == bs[0]);
        assert(bs[0].0@ != p.0@);
        assert(t.drop_first() =~= bs.drop_first().push(p));
        lemma_blookup_push(bs.drop_first(), p);
        assert(blookup(t, p.0@) == blookup(t.drop_first(), p.0@));
        assert forall|k: Seq<char>| k != p.0@ implies #[trigger] blookup(t, k) == blookup(
            bs,
            k,
        ) by {
            if bs[0].0@ == k {
            } else {
                assert(blookup(t, k) == blookup(t.drop_first(), k));
                assert(blookup(bs, k) == blookup(bs.drop_first(), k));
            }
        }
    }
}

/// An absent key matches no stored bucket.
proof fn lemma_blookup_absent(bs: Seq<(String, RateLimitBucket)>, k: Seq<char>)
    requires
        blookup(bs, k) is None,
    ensures
        forall|q: int| 0 <= q < bs.len() ==> (#[trigger] bs[q]).0@ != k,
    decreases bs.len(),
{
    if bs.len() > 0 {
        assert(bs[0].0@ != k);
        lemma_blookup_absent(bs.drop_first(), k);
        assert forall|q: int| 0 <= q < bs.len() implies (#[trigger] bs[q]).0@ != k by {
            if q > 0 {
                assert(bs.drop_first()[q - 1] == bs[q]);
            }
        }
    }
}

/// Buckets kept after a reset for `prefix`: those whose key does not start
/// with it.
pub open spec fn breset(
    bs: Seq<(String, RateLimitBucket)>,
    prefix: Seq<char>,
) -> Seq<(String, RateLimitBucket)>
    decreases bs.len(),
{
    if bs.len() == 0 {
        bs
    } else if crate::strutil::starts_with(bs[0].0@, prefix) {
        breset(bs.drop_first(), prefix)
    } else {
        seq![bs[0]] + breset(bs.drop_first(), prefix)
    }
}

/// After a reset, keys under the prefix are gone and the rest read as before.
pub proof fn lemma_breset(bs: Seq<(String, RateLimitBucket)>, prefix: Seq<char>)
    ensures
        forall|k: Seq<char>|
            crate::strutil::starts_with(k, prefix) ==> #[trigger] blookup(breset(bs, prefix), k)
                is None,
        forall|k: Seq<char>|
            !crate::strutil::starts_with(k, prefix) ==> #[trigger] blookup(breset(bs, prefix), k)
                == blookup(bs, k),
    decreases bs.len(),
{
    if bs.len() == 0 {
    } else {
        lemma_breset(bs.drop_first(), prefix);
        if crate::strutil::starts_with(bs[0].0@, prefix) {
            assert(breset(bs, prefix) == breset(bs.drop_first(), prefix));
            assert forall|k: Seq<char>| !crate::strutil::starts_with(k, prefix)
                implies #[trigger] blookup(breset(bs, prefix), k) == blookup(bs, k) by {
                assert(k != bs[0].0@);
                assert(blookup(bs, k) == blookup(bs.drop_first(), k));
            }
        } else {
            let t = seq![bs[0]] + breset(bs.drop_first(), prefix);
            assert(breset(bs, prefix) == t);
            assert(t[0] == bs[0]);
            assert(t.drop_first() =~= breset(bs.drop_first(), prefix));
            assert forall|k: Seq<char>| crate::strutil::starts_with(k, prefix)
                implies #[trigger] blookup(breset(bs, prefix), k) is None by {
                assert(k != bs[0].0@);
                assert(blookup(t, k) == blookup(t.drop_first(), k));
            }
            assert forall|k: Seq<char>| !crate::strutil::starts_with(k, prefix)
                implies #[trigger] blookup(breset(bs, prefix), k) == blookup(bs, k) by {
                if bs[0].0@ == k {
                } else {
                    assert(blookup(t, k) == blookup(t.drop_first(), k));
                    assert(blookup(bs, k) == blookup(bs.drop_first(), k));
                }
            }
        }
    }
}

/// Appending one bucket extends the reset result by that bucket when its
/// key survives, and not at all when it does not.
proof fn lemma_breset_push(
    bs: Seq<(String, RateLimitBucket)>,
    p: (String, RateLimitBucket),
    prefix: Seq<char>,
)
    ensures
        breset(bs.push(p), prefix) == if crate::strutil::starts_with(p.0@, prefix) {
            breset(bs, prefix)
        } else {
            breset(bs, prefix).push(p)
        },
    decreases bs.len(),
{
    let t = bs.push(p);
    if bs.len() == 0 {
        assert(t[0] == p);
        assert(t.drop_first() =~= Seq::<(String, RateLimitBucket)>::empty());
        if crate::strutil::starts_with(p.0@, prefix) {
            assert(breset(t, prefix) == breset(t.drop_first(), prefix));
        } else {
            assert(breset(t, prefix) == seq![p] + breset(t.drop_first(), prefix));
            assert(seq![p] + breset(Seq::<(String, RateLimitBucket)>::empty(), prefix) =~= breset(
                bs,
                prefix,
            ).push(p));
        }
    } else {
        assert(t[0] == bs[0]);
        assert(t.drop_first() =~= bs.drop_first().push(p));
        lemma_breset_push(bs.drop_first(), p, prefix);
        if crate::strutil::starts_with(bs[0].0@, prefix) {
        } else {
            if crate::strutil::starts_with(p.0@, prefix) {
            } else {
                assert(seq![bs[0]] + breset(bs.drop_first(), prefix).push(p) =~= (seq![bs[0]]
                    + breset(bs.drop_first(), prefix)).push(p));
            }
        }
    }
}

/// How many buckets hold at least one stamp.
pub open spec fn active_buckets(bs: Seq<(String, RateLimitBucket)>) -> int
    decreases bs.len(),
{
    if bs.len() == 0 {
        0
    } else {
        active_buckets(bs.drop_last()) + (if bs.last().1.requests@.len() > 0 {
            1int
        } else {
            0int
        })
    }
}

/// The set of rate-limit rules and the accounting buckets they feed.
pub struct RateLimiter {
    rules: RuleStore<RateLimitRule>,
    buckets: Vec<(String, RateLimitBucket)>,
}

impl RateLimiter {
    /// The rules currently held, in insertion order.
    pub closed spec fn rules(&self) -> Seq<RateLimitRule> {
        self.rules.rules()
    }

    /// The bucket table.
    pub closed spec fn buckets_view(&self) -> Seq<(String, RateLimitBucket)> {
        self.buckets@
    }

    /// The rules' ids are pairwise distinct.
    pub open spec fn wf(&self) -> bool {
        crate::store::keys_unique(self.rules())
    }

    pub fn new() -> (r: Self)
        ensures
            r.wf(),
            r.rules() == Seq::<RateLimitRule>::empty(),
            r.buckets_view() == Seq::<(String, RateLimitBucket)>::empty(),
    {
        RateLimiter { rules: RuleStore::new(), buckets: Vec::new() }
    }

    /// Creates a rule from the given fields under a fresh id.
    pub fn add_rule(&mut self, create_rule: CreateRateLimitRule) -> (id: String)
        requires
            old(self).wf(),
        ensures
            final(self).wf(),
            final(self).buckets_view() == old(self).buckets_view(),
            ({
                let e = lookup(final(self).rules(), id@);
                &&& e is Some
                &&& e.unwrap().id@ == id@
                &&& e.unwrap().name == create_rule.name
                &&& e.unwrap().enabled == create_rule.enabled
                &&& e.unwrap().priority == create_rule.priority
                &&& e.unwrap().match_request == create_rule.match_request
                &&& e.unwrap().limit == create_rule.limit
                &&& same_rl_response(e.unwrap().response, create_rule.response)
            }),
            forall|k: Seq<char>|
                k != id@ ==> #[trigger] lookup(final(self).rules(), k) == lookup(
                    old(self).rules(),
                    k,
                ),
            !has_key(old(self).rules(), id@),
            final(self).rules().len() == old(self).rules().len() + 1,
    {
        let id = self.rules.fresh_key();
        let rule = RateLimitRule {
            id: id.clone(),
            name: create_rule.name,
            enabled: create_rule.enabled,
            priority: create_rule.priority,
            match_request: create_rule.match_request,
            limit: create_rule.limit,
            response: create_rule.response,
            created_at: now_millis(),
        };
        self.rules.upsert(rule);
        id
    }

    /// Replaces the rule with the given id, keeping its creation stamp.
    pub fn update_rule(&mut self, update_rule: UpdateRateLimitRule) -> (r: bool)
        requires
            old(self).wf(),
        ensures
            final(self).wf(),
            final(self).buckets_view() == old(self).buckets_view(),
            r == has_key(old(self).rules(), update_rule.id@),
            r ==> ({
                let e = lookup(final(self).rules(), update_rule.id@);
                &&& e is Some
                &&& e.unwrap().id == update_rule.id
                &&& e.unwrap().name == update_rule.name
                &&& e.unwrap().enabled == update_rule.enabled
                &&& e.unwrap().priority == update_rule.priority
                &&& e.unwrap().match_request == update_rule.match_request
                &&& e.unwrap().limit == update_rule.limit
                &&& same_rl_response(e.unwrap().response, update_rule.response)
                &&& e.unwrap().created_at == lookup(
                    old(self).rules(),
                    update_rule.id@,
                ).unwrap().created_at
            }),
            !r ==> final(self).rules() == old(self).rules(),
            forall|k: Seq<char>|
                k != update_rule.id@ ==> #[trigger] lookup(final(self).rules(), k) == lookup(
                    old(self).rules(),
                    k,
                ),
            final(self).rules().len() == old(self).rules().len(),
    {
        let created: Option<u64> = match self.rules.get(update_rule.id.as_str()) {
            Some(e) => Some(e.created_at),
            None => None,
        };
        match created {
            Some(created_at) => {
                let rule = RateLimitRule {
                    id: update_rule.id,
                    name: update_rule.name,
                    enabled: update_rule.enabled,
                    priority: update_rule.priority,
                    match_request: update_rule.match_request,
                    limit: update_rule.limit,
                    response: update_rule.response,
                    created_at,
                };
                self.rules.upsert(rule);
                true
            },
            None => false,
        }
    }

    /// Deletes the rule with this id.
    pub fn delete_rule(&mut self, id: &str) -> (r: bool)
        requires
            old(self).wf(),
        ensures
            final(self).wf(),
            final(self).buckets_view() == old(self).buckets_view(),
            r == has_key(old(self).rules(), id@),
            lookup(final(self).rules(), id@) == None::<RateLimitRule>,
            forall|k: Seq<char>|
                k != id@ ==> #[trigger] lookup(final(self).rules(), k) == lookup(
                    old(self).rules(),
                    k,
                ),
            final(self).rules().len() == old(self).rules().len() - (if has_key(
                old(self).rules(),
                id@,
            ) {
                1int
            } else {
                0int
            }),
    {
        self.rules.remove(id)
    }

    /// A copy of the rule with this id.
    pub fn get_rule(&self, id: &str) -> (r: Option<RateLimitRule>)
        requires
            self.wf(),
        ensures
            match r {
                Some(m) => lookup(self.rules(), id@) is Some && same_rl(
                    m,
                    lookup(self.rules(), id@).unwrap(),
                ),
                None => lookup(self.rules(), id@) is None,
            },
    {
        match self.rules.get(id) {
            Some(e) => Some(e.clone_rule()),
            None => None,
        }
    }

    /// Copies of all rules, sorted by priority descending.
    pub fn get_all_rules(&self) -> (r: Vec<RateLimitRule>)
        ensures
            r@.len() == self.rules().len(),
            forall|i: int, j: int| 0 <= i < j < r@.len() ==> r@[i].priority >= r@[j].priority,
            forall|i: int| 0 <= i < r@.len() ==> some_same_rl(self.rules(), #[trigger] r@[i]),
            forall|k: int|
                0 <= k < self.rules().len() ==> some_same_rl(r@, #[trigger] self.rules()[k]),
    {
        let refs = self.rules.list_sorted();
        let n = refs.len();
        let mut r: Vec<RateLimitRule> = Vec::new();
        let mut i: usize = 0;
        while i < n
            invariant
                i <= n,
                n == refs@.len(),
                refs@.len() == self.rules().len(),
                r@.len() == i,
                forall|a: int, b: int|
                    0 <= a < b < refs@.len() ==> refs@[a].prio() >= refs@[b].prio(),
                forall|a: int|
                    0 <= a < refs@.len() ==> self.rules().contains(#[trigger] *refs@[a]),
                forall|a: int|
                    0 <= a < self.rules().len() ==> crate::store::appears(
                        refs@,
                        #[trigger] self.rules()[a],
                    ),
                forall|a: int| 0 <= a < i ==> same_rl(#[trigger] r@[a], *refs@[a]),
            decreases n - i,
        {
            r.push(refs[i].clone_rule());
            i += 1;
        }
        proof {
            assert forall|a: int, b: int| 0 <= a < b < r@.len() implies r@[a].priority
                >= r@[b].priority by {
                assert(same_rl(r@[a], *refs@[a]));
                assert(same_rl(r@[b], *refs@[b]));
            }
            assert forall|a: int| 0 <= a < r@.len() implies some_same_rl(
                self.rules(),
                #[trigger] r@[a],
            ) by {
                assert(self.rules().contains(*refs@[a]));
                let k = choose|k: int|
                    0 <= k < self.rules().len() && #[trigger] self.rules()[k] == *refs@[a];
                assert(same_rl(r@[a], self.rules()[k]));
            }
            assert forall|k: int| 0 <= k < self.rules().len() implies some_same_rl(
                r@,
                #[trigger] self.rules()[k],
            ) by {
                assert(crate::store::appears(refs@, self.rules()[k]));
                let w = choose|w: int|
                    0 <= w < refs@.len() && *(#[trigger] refs@[w]) == self.rules()[k];
                assert(same_rl(self.rules()[k], r@[w]));
            }
        }
        r
    }

    /// Flips the enabled flag of the rule with this id.
    pub fn toggle_rule(&mut self, id: &str) -> (r: bool)
        requires
            old(self).wf(),
        ensures
            final(self).wf(),
            final(self).buckets_view() == old(self).buckets_view(),
            r == has_key(old(self).rules(), id@),
            r ==> ({
                let e = lookup(old(self).rules(), id@).unwrap();
                lookup(final(self).rules(), id@) == Some(e.with_active(!e.active()))
            }),
            !r ==> final(self).rules() == old(self).rules(),
            forall|k: Seq<char>|
                k != id@ ==> #[trigger] lookup(final(self).rules(), k) == lookup(
                    old(self).rules(),
                    k,
                ),
            final(self).rules().len() == old(self).rules().len(),
    {
        self.rules.toggle(id)
    }

    /// Removes every rule and every bucket.
    pub fn clear_all(&mut self)
        ensures
            final(self).wf(),
            final(self).rules() == Seq::<RateLimitRule>::empty(),
            final(self).buckets_view() == Seq::<(String, RateLimitBucket)>::empty(),
    {
        self.rules.clear();
        self.buckets.clear();
        assert(self.buckets@ =~= Seq::<(String, RateLimitBucket)>::empty());
    }

    /// Builds the bucket key a rule assigns to a request.
    fn bucket_key(
        rule: &RateLimitRule,
        client_key: &str,
        headers: &Vec<(String, String)>,
    ) -> (r: String)
        ensures
            r@ == rl_bucket_key(*rule, client_key@, headers@),
    {
        let mut key = rule.id.clone();
        match &rule.match_request.key_type {
            KeyType::Global => {
                key.append(":global");
            },
            KeyType::IpAddress => {
                key.append(":ip:");
                key.append(client_key);
            },
            KeyType::Header { name } => {
                key.append(":header:");
                key.append(name.as_str());
                key.append(":");
                match crate::headers::header_get(headers, name.as_str()) {
                    Some(v) => {
                        key.append(v.as_str());
                    },
                    None => {
                        key.append("unknown");
                    },
                }
            },
            KeyType::Custom { pattern } => {
                key.append(":custom:");
                key.append(pattern.as_str());
            },
        }
        key
    }

    /// The position of the first bucket stored under `key`.
    fn bucket_index(&self, key: &str) -> (r: Option<usize>)
        ensures
            match r {
                Some(i) => {
                    &&& i < self.buckets_view().len()
                    &&& self.buckets_view()[i as int].0@ == key@
                    &&& forall|q: int|
                        0 <= q < i ==> (#[trigger] self.buckets_view()[q]).0@ != key@
                    &&& blookup(self.buckets_view(), key@) == Some(
                        (
                            self.buckets_view()[i as int].1.requests@,
                            self.buckets_view()[i as int].1.burst_used,
                        ),
                    )
                },
                None => blookup(self.buckets_view(), key@) is None,
            },
    {
        let bs = &self.buckets;
        let n = bs.len();
        let mut i: usize = 0;
        proof {
            assert(bs@.skip(0) =~= bs@);
        }
        while i < n
            invariant
                i <= n,
                bs@ == self.buckets_view(),
                n == bs@.len(),
                forall|q: int| 0 <= q < i ==> (#[trigger] bs@[q]).0@ != key@,
                blookup(bs@, key@) == blookup(bs@.skip(i as int), key@),
            decreases n - i,
        {
            proof {
                assert(bs@.skip(i as int)[0] == bs@[i as int]);
                assert(bs@.skip(i as int).drop_first() =~= bs@.skip(i + 1));
            }
            if crate::strutil::str_eq(bs[i].0.as_str(), key) {
                proof {
                    lemma_blookup_first(bs@, i as int, key@);
                }
                return Some(i);
            }
            i += 1;
        }
        proof {
            assert(bs@.skip(n as int) =~= Seq::<(String, RateLimitBucket)>::empty());
        }
        None
    }

    /// Evaluates the rate limit for a request at time `now_ms`.
    ///
    /// Among enabled rules whose predicate matches, the one with the highest
    /// priority decides; its bucket (created on first use) takes one
    /// `bucket_step`. An admitted request returns `None`; a denied one
    /// returns the rule and the bucket's state. Without a matching rule
    /// nothing changes.
    pub fn check_rate_limit_at(
        &mut self,
        method: &str,
        url: &str,
        client_key: &str,
        headers: &Vec<(String, String)>,
        now_ms: u64,
    ) -> (r: Option<(RateLimitRule, RateLimitInfo)>)
        requires
            old(self).wf(),
        ensures
            final(self).wf(),
            final(self).rules() == old(self).rules(),
            ({
                let rs = old(self).rules();
                if exists|j: int|
                    0 <= j < rs.len() && (#[trigger] rs[j]).enabled && rl_matches(
                        rs[j],
                        method@,
                        url@,
                    ) {
                    exists|j: int|
                        #![trigger rs[j]]
                        {
                            &&& is_best_rl(rs, j, method@, url@)
                            &&& ({
                                let key = rl_bucket_key(rs[j], client_key@, headers@);
                                let prev = match blookup(old(self).buckets_view(), key) {
                                    Some(p) => p,
                                    None => (Seq::<u64>::empty(), 0u32),
                                };
                                let (s2, b2, a) = bucket_step(prev.0, prev.1, rs[j].limit, now_ms);
                                &&& blookup(final(self).buckets_view(), key) == Some((s2, b2))
                                &&& forall|k2: Seq<char>|
                                    k2 != key ==> #[trigger] blookup(
                                        final(self).buckets_view(),
                                        k2,
                                    ) == blookup(old(self).buckets_view(), k2)
                                &&& if a {
                                    r is None
                                } else {
                                    {
                                        &&& r is Some
                                        &&& same_rl(r.unwrap().0, rs[j])
                                        &&& r.unwrap().1.limit == rs[j].limit.max_requests
                                        &&& r.unwrap().1.remaining as int == remaining_of(
                                            kept_stamps(
                                                prev.0,
                                                now_ms,
                                                bucket_window_ms(rs[j].limit),
                                            ).len() as int,
                                            rs[j].limit.max_requests,
                                        )
                                        &&& r.unwrap().1.reset_in_seconds as int == reset_secs(
                                            s2,
                                            now_ms,
                                            rs[j].limit.window_seconds,
                                        )
                                        &&& r.unwrap().1.retry_after == Some(
                                            r.unwrap().1.reset_in_seconds,
                                        )
                                    }
                                }
                            })
                        }
                } else {
                    r is None && final(self).buckets_view() == old(self).buckets_view()
                }
            }),
    {
        let ghost rs = self.rules.rules();
        // pick the highest-priority enabled rule whose predicate matches
        let n = self.rules.len();
        let mut best: Option<usize> = None;
        let mut i: usize = 0;
        while i < n
            invariant
                i <= n,
                n == rs.len(),
                rs == self.rules.rules(),
                match best {
                    Some(bi) => {
                        &&& bi < i
                        &&& rs[bi as int].enabled
                        &&& rl_matches(rs[bi as int], method@, url@)
                        &&& forall|k: int|
                            0 <= k < i && (#[trigger] rs[k]).enabled && rl_matches(
                                rs[k],
                                method@,
                                url@,
                            ) ==> rs[k].priority <= rs[bi as int].priority
                        &&& forall|k: int|
                            0 <= k < bi && (#[trigger] rs[k]).enabled && rl_matches(
                                rs[k],
                                method@,
                                url@,
                            ) ==> rs[k].priority < rs[bi as int].priority
                    },
                    None => forall|k: int|
                        0 <= k < i ==> !((#[trigger] rs[k]).enabled && rl_matches(
                            rs[k],
                            method@,
                            url@,
                        )),
                },
            decreases n - i,
        {
            let e = self.rules.entry_at(i);
            if e.enabled && e.matches(method, url) {
                match best {
                    Some(bi) => {
                        let b = self.rules.entry_at(bi);
                        if e.priority > b.priority {
                            best = Some(i);
                        }
                    },
                    None => {
                        best = Some(i);
                    },
                }
            }
            i += 1;
        }

        let bi = match best {
            Some(bi) => bi,
            None => {
                return None;
            },
        };
        let ghost j = bi as int;
        proof {
            assert(is_best_rl(rs, j, method@, url@));
        }
        let rule = self.rules.entry_at(bi).clone_rule();
        proof {
            assert(same_rl(rule, rs[j]));
            assert(rule.match_request == rs[j].match_request);
            assert(rule.limit == rs[j].limit);
            assert(rule.id == rs[j].id);
        }
        let key = Self::bucket_key(&rule, client_key, headers);
        proof {
            assert(rl_bucket_key(rule, client_key@, headers@) == rl_bucket_key(
                rs[j],
                client_key@,
                headers@,
            ));
        }

        // find or create the bucket, keeping the first match
        let ghost bs0 = self.buckets@;
        let ghost had_bucket = blookup(bs0, key@) is Some;
        let bidx: usize = match self.bucket_index(key.as_str()) {
            Some(i) => i,
            None => {
                let fresh = (key.clone(), RateLimitBucket::new());
                proof {
                    lemma_blookup_push(bs0, fresh);
                }
                let at = self.buckets.len();
                self.buckets.push(fresh);
                proof {
                    assert(self.buckets@ =~= bs0.push(fresh));
                }
                at
            },
        };
        let ghost bs1 = self.buckets@;
        proof {
            if !had_bucket {
                lemma_blookup_absent(bs0, key@);
            }
            assert(bidx < bs1.len());
            assert(bs1[bidx as int].0@ == key@);
            assert(forall|q: int| 0 <= q < bidx ==> (#[trigger] bs1[q]).0@ != key@);
        }

        let ghost prev_model = match blookup(bs0, key@) {
            Some(p) => p,
            None => (Seq::<u64>::empty(), 0u32),
        };
        proof {
            if had_bucket {
                lemma_blookup_first(bs0, bidx as int, key@);
                assert(bs1 == bs0);
                assert(blookup(bs0, key@) == Some(
                    (bs1[bidx as int].1.requests@, bs1[bidx as int].1.burst_used),
                ));
            } else {
                assert(bs1[bidx as int].1.requests@ =~= Seq::<u64>::empty());
            }
            assert(prev_model.0 == bs1[bidx as int].1.requests@);
            assert(prev_model.1 == bs1[bidx as int].1.burst_used);
        }

        let mut pair = self.buckets.remove(bidx);
        let (allowed, info) = pair.1.is_allowed(&rule.limit, now_ms);
        self.buckets.insert(bidx, pair);
        proof {
            assert(pair.0@ == key@);
            assert(self.buckets@ =~= bs1.update(bidx as int, pair));
            lemma_blookup_update(bs1, bidx as int, pair);
        }

        if !allowed {
            Some((rule, info))
        } else {
            None
        }
    }

    /// Evaluates the rate limit for a request at the current time. The rules
    /// are untouched; a `Some` carries a copy of a matching enabled rule that
    /// no enabled matching rule out-prioritises.
    pub fn check_rate_limit(
        &mut self,
        method: &str,
        url: &str,
        client_key: &str,
        headers: &Vec<(String, String)>,
    ) -> (r: Option<(RateLimitRule, RateLimitInfo)>)
        requires
            old(self).wf(),
        ensures
            final(self).wf(),
            final(self).rules() == old(self).rules(),
            r is Some ==> exists|j: int|
                #![trigger old(self).rules()[j]]
                {
                    &&& 0 <= j < old(self).rules().len()
                    &&& old(self).rules()[j].enabled
                    &&& rl_matches(old(self).rules()[j], method@, url@)
                    &&& same_rl(r.unwrap().0, old(self).rules()[j])
                    &&& forall|k: int|
                        0 <= k < old(self).rules().len() && (#[trigger] old(
                            self,
                        ).rules()[k]).enabled && rl_matches(old(self).rules()[k], method@, url@)
                            ==> old(self).rules()[k].priority <= old(self).rules()[j].priority
                },
            (forall|k: int|
                0 <= k < old(self).rules().len() ==> !((#[trigger] old(
                    self,
                ).rules()[k]).enabled && rl_matches(old(self).rules()[k], method@, url@))) ==> (r
                is None && final(self).buckets_view() == old(self).buckets_view()),
            (exists|j: int|
                #![trigger old(self).rules()[j]]
                is_best_rl(old(self).rules(), j, method@, url@) && blookup(
                    old(self).buckets_view(),
                    rl_bucket_key(old(self).rules()[j], client_key@, headers@),
                ) is None && old(self).rules()[j].limit.max_requests >= 1) ==> r is None,
    {
        let ghost rs = self.rules();
        let ghost bs = self.buckets_view();
        let now = now_millis();
        let r = self.check_rate_limit_at(method, url, client_key, headers, now);
        proof {
            if exists|j: int|
                #![trigger rs[j]]
                is_best_rl(rs, j, method@, url@) && blookup(
                    bs,
                    rl_bucket_key(rs[j], client_key@, headers@),
                ) is None && rs[j].limit.max_requests >= 1 {
                let j = choose|j: int|
                    #![trigger rs[j]]
                    is_best_rl(rs, j, method@, url@) && blookup(
                        bs,
                        rl_bucket_key(rs[j], client_key@, headers@),
                    ) is None && rs[j].limit.max_requests >= 1;
                if r is Some {
                    let j2 = choose|j2: int|
                        #![trigger rs[j2]]
                        is_best_rl(rs, j2, method@, url@) && !bucket_step(
                            bucket_model_of(bs, rl_bucket_key(rs[j2], client_key@, headers@)).0,
                            bucket_model_of(bs, rl_bucket_key(rs[j2], client_key@, headers@)).1,
                            rs[j2].limit,
                            now,
                        ).2;
                    lemma_best_rl_unique(rs, j, j2, method@, url@);
                    let prev = bucket_model_of(bs, rl_bucket_key(rs[j], client_key@, headers@));
                    assert(prev.0 =~= Seq::<u64>::empty());
                    assert(kept_stamps(prev.0, now, bucket_window_ms(rs[j].limit)).len() == 0);
                    assert(false);
                }
            }
        }
        r
    }

    /// Evicts every bucket whose key begins with `{rule_id}:`.
    pub fn reset_bucket(&mut self, rule_id: &str)
        ensures
            final(self).wf() == old(self).wf(),
            final(self).rules() == old(self).rules(),
            final(self).buckets_view() == breset(old(self).buckets_view(), rule_id@ + ":"@),
            forall|k: Seq<char>|
                crate::strutil::starts_with(k, rule_id@ + ":"@) ==> #[trigger] blookup(
                    final(self).buckets_view(),
                    k,
                ) is None,
            forall|k: Seq<char>|
                !crate::strutil::starts_with(k, rule_id@ + ":"@) ==> #[trigger] blookup(
                    final(self).buckets_view(),
                    k,
                ) == blookup(old(self).buckets_view(), k),
    {
        let mut prefix = String::new();
        prefix.append(rule_id);
        prefix.append(":");
        proof {
            assert(prefix@ == rule_id@ + ":"@);
        }
        let pv = crate::strutil::chars_vec(prefix.as_str());
        let ghost bs0 = self.buckets@;
        let ghost rules0 = self.rules;
        let ghost mut j: int = 0;
        let mut i: usize = 0;
        proof {
            assert(bs0.subrange(0, 0) =~= Seq::<(String, RateLimitBucket)>::empty());
            assert(bs0.skip(0) =~= bs0);
        }
        while i < self.buckets.len()
            invariant
                self.rules == rules0,
                pv@ == rule_id@ + ":"@,
                0 <= i as int <= j <= bs0.len(),
                self.buckets@ == breset(bs0.subrange(0, j), pv@) + bs0.skip(j),
                i as int == breset(bs0.subrange(0, j), pv@).len(),
            decreases bs0.len() - j,
        {
            let ghost pre = breset(bs0.subrange(0, j), pv@);
            proof {
                assert(self.buckets@.len() == pre.len() + bs0.skip(j).len());
                assert(bs0.skip(j).len() > 0);
                assert(j < bs0.len());
                assert(self.buckets@[i as int] == bs0.skip(j)[0]);
                assert(bs0.skip(j)[0] == bs0[j]);
                assert(bs0.subrange(0, j + 1) =~= bs0.subrange(0, j).push(bs0[j]));
                lemma_breset_push(bs0.subrange(0, j), bs0[j], pv@);
            }
            let kv = crate::strutil::chars_vec(self.buckets[i].0.as_str());
            if crate::strutil::chars_starts_with(&kv, &pv) {
                self.buckets.remove(i);
                proof {
                    assert(self.buckets@ =~= (pre + bs0.skip(j)).remove(i as int));
                    assert((pre + bs0.skip(j)).remove(i as int) =~= pre + bs0.skip(j + 1)) by {
                        assert(bs0.skip(j).drop_first() =~= bs0.skip(j + 1));
                        assert forall|x: int|
                            0 <= x < (pre + bs0.skip(j)).remove(i as int).len() implies (pre
                            + bs0.skip(j)).remove(i as int)[x] == (pre + bs0.skip(j + 1))[x] by {
                        }
                    }
                    assert(breset(bs0.subrange(0, j + 1), pv@) == pre);
                    j = j + 1;
                }
            } else {
                proof {
                    assert(breset(bs0.subrange(0, j + 1), pv@) == pre.push(bs0[j]));
                    assert(self.buckets@ =~= breset(bs0.subrange(0, j + 1), pv@) + bs0.skip(
                        j + 1,
                    )) by {
                        assert(bs0.skip(j).drop_first() =~= bs0.skip(j + 1));
                        assert(pre + bs0.skip(j) =~= pre.push(bs0[j]) + bs0.skip(j + 1));
                    }
                    j = j + 1;
                }
                i += 1;
            }
        }
        proof {
            assert(j == bs0.len()) by {
                assert(self.buckets@.len() == breset(bs0.subrange(0, j), pv@).len() + bs0.skip(
                    j,
                ).len());
            }
            assert(bs0.subrange(0, j) =~= bs0);
            assert(bs0.skip(j) =~= Seq::<(String, RateLimitBucket)>::empty());
            assert(self.buckets@ =~= breset(bs0, pv@));
            lemma_breset(bs0, pv@);
        }
    }

    /// Counts the buckets, and those currently holding stamps.
    pub fn get_bucket_stats(&self) -> (r: BucketStats)
        ensures
            r.total_buckets == self.buckets_view().len(),
            r.active_limits as int == active_buckets(self.buckets_view()),
    {
        let n = self.buckets.len();
        let mut active: usize = 0;
        let mut i: usize = 0;
        while i < n
            invariant
                i <= n,
                n == self.buckets@.len(),
                active as int == active_buckets(self.buckets@.subrange(0, i as int)),
                active <= i,
            decreases n - i,
        {
            proof {
                assert(self.buckets@.subrange(0, i + 1).drop_last() =~= self.buckets@.subrange(
                    0,
                    i as int,
                ));
                assert(self.buckets@.subrange(0, i + 1).last() == self.buckets@[i as int]);
            }
            if self.buckets[i].1.requests.len() > 0 {
                active += 1;
            }
            i += 1;
        }
        proof {
            assert(self.buckets@.subrange(0, n as int) =~= self.buckets@);
        }
        BucketStats { total_buckets: n, active_limits: active }
    }
}

/// With the first `i` keys all different from `k` and position `i` bearing
/// `k`, the lookup answers from position `i`.
proof fn lemma_blookup_first(bs: Seq<(String, RateLimitBucket)>, i: int, k: Seq<char>)
    requires
        0 <= i < bs.len(),
        forall|q: int| 0 <= q < i ==> (#[trigger] bs[q]).0@ != k,
        bs[i].0@ == k,
    ensures
        blookup(bs, k) == Some((bs[i].1.requests@, bs[i].1.burst_used)),
    decreases i,
{
    if i == 0 {
    } else {
        assert(bs.drop_first()[i - 1] == bs[i]);
        assert(forall|q: int|
            0 <= q < i - 1 ==> (#[trigger] bs.drop_first()[q]).0@ != k);
        lemma_blookup_first(bs.drop_first(), i - 1, k);
    }
}


} // verus!
