//! The latency engine: rules that suspend a request or a response for a
//! configured duration — fixed, uniform, normal, or spiking. The engine
//! decides the delay; the caller performs the sleep and reports it back
//! through `record_delay`.
use vstd::prelude::*;

use crate::ids::now_millis;
use crate::matcher::{predicate_holds, predicate_matches, view_method, MatchType};
use crate::store::{has_key, lookup, RuleStore, StoreEntry};

verus! {

/// Which side of the exchange a rule delays.
#[derive(Clone, Copy, Debug, PartialEq, Eq, Structural)]
pub enum ApplyTo {
    Request,
    Response,
    Both,
}

/// How a delay is drawn. Durations are in milliseconds; the spike
/// probability is in parts per million of certainty.
#[derive(Clone, Copy, Debug, PartialEq, Eq, Structural)]
pub enum DelayConfig {
    Fixed { delay_ms: u64 },
    Random { min_ms: u64, max_ms: u64 },
    Normal { mean_ms: u64, std_dev_ms: u64 },
    Spike { base_delay_ms: u64, spike_delay_ms: u64, spike_probability_ppm: u32 },
}

/// The predicate of a latency rule, and which side it delays.
pub struct LatencyMatch {
    pub method: Option<String>,
    pub url_pattern: String,
    pub url_match_type: MatchType,
    pub apply_to: ApplyTo,
}

/// A stored latency rule.
pub struct LatencyRule {
    pub id: String,
    pub name: String,
    pub enabled: bool,
    pub priority: i32,
    pub match_request: LatencyMatch,
    pub delay: DelayConfig,
    pub created_at: u64,
}

/// The fields a caller provides to create a latency rule.
pub struct CreateLatencyRule {
    pub name: String,
    pub enabled: bool,
    pub priority: i32,
    pub match_request: LatencyMatch,
    pub delay: DelayConfig,
}

/// The fields a caller provides to replace a latency rule.
pub struct UpdateLatencyRule {
    pub id: String,
    pub name: String,
    pub enabled: bool,
    pub priority: i32,
    pub match_request: LatencyMatch,
    pub delay: DelayConfig,
}

/// Per-rule injection counters.
pub struct RuleStats {
    pub rule_id: String,
    pub rule_name: String,
    pub hits: u64,
    pub total_delay_ms: u64,
    pub avg_delay_ms: u64,
}

/// Global injection counters, plus one entry per rule that has injected.
pub struct LatencyStats {
    pub total_injections: u64,
    pub total_delay_ms: u64,
    pub min_delay_ms: u64,
    pub max_delay_ms: u64,
    pub avg_delay_ms: u64,
    pub by_rule: Vec<RuleStats>,
}

/// Latency rules that agree field for field.
pub open spec fn same_latency(a: LatencyRule, b: LatencyRule) -> bool {
    &&& a.id == b.id
    &&& a.name == b.name
    &&& a.enabled == b.enabled
    &&& a.priority == b.priority
    &&& a.match_request == b.match_request
    &&& a.delay == b.delay
    &&& a.created_at == b.created_at
}

/// Some rule in `s` agrees with `m` field for field.
pub open spec fn some_same_latency(s: Seq<LatencyRule>, m: LatencyRule) -> bool {
    exists|k: int| 0 <= k < s.len() && same_latency(m, #[trigger] s[k])
}

/// Whether a rule's predicate accepts the request.
pub open spec fn latency_matches(rule: LatencyRule, method: Seq<char>, url: Seq<char>) -> bool {
    predicate_holds(
        view_method(&rule.match_request.method),
        rule.match_request.url_match_type,
        rule.match_request.url_pattern@,
        method,
        url,
    )
}

/// Whether a rule set for `rule_side` covers an injection on `side`:
/// `both` covers either side, the others only themselves.
pub open spec fn side_applies(rule_side: ApplyTo, side: ApplyTo) -> bool {
    match rule_side {
        ApplyTo::Both => true,
        ApplyTo::Request => side is Request,
        ApplyTo::Response => side is Response,
    }
}

/// Where a delay draw can fall: `fixed` hits its value; `random` stays
/// within its bounds; `normal` stays within six deviations of its mean (and
/// hits the mean exactly when the deviation is zero); `spike` lands on one
/// of its two values — always the base at probability zero, always the
/// spike at certainty or above.
pub open spec fn draw_in_range(config: DelayConfig, d: u64) -> bool {
    match config {
        DelayConfig::Fixed { delay_ms } => d == delay_ms,
        DelayConfig::Random { min_ms, max_ms } => if min_ms <= max_ms {
            min_ms <= d <= max_ms
        } else {
            d == min_ms
        },
        DelayConfig::Normal { mean_ms, std_dev_ms } => {
            &&& (std_dev_ms == 0 ==> d == mean_ms)
            &&& d as int <= mean_ms + 6 * std_dev_ms
            &&& (mean_ms >= 6 * std_dev_ms ==> d as int >= mean_ms - 6 * std_dev_ms)
        },
        DelayConfig::Spike { base_delay_ms, spike_delay_ms, spike_probability_ppm } => {
            &&& (d == base_delay_ms || d == spike_delay_ms)
            &&& (spike_probability_ppm == 0 ==> d == base_delay_ms)
            &&& (spike_probability_ppm >= 1000000 ==> d == spike_delay_ms)
        },
    }
}

/// Relies on `rand::random_range` over `min..=max`: the draw lies in the
/// closed range. The range must not be empty. Which value comes back is
/// left open — it depends on a thread-local generator.
#[verifier::external_body]
fn random_in_range(min: u64, max: u64) -> (r: u64)
    requires
        min <= max,
    ensures
        min <= r <= max,
{
    rand::random_range(min..=max)
}

/// An approximately normal draw around `mean_ms` with deviation
/// `std_dev_ms`, clamped below at zero: the sum of twelve uniform draws on
/// `[0, std_dev_ms]`, shifted so its mean is `mean_ms` and its standard
/// deviation is `std_dev_ms`. With a deviation of zero the draw is exactly
/// the mean.
fn normal_draw(mean_ms: u64, std_dev_ms: u64) -> (r: u64)
    ensures
        std_dev_ms == 0 ==> r == mean_ms,
        r as int <= mean_ms + 6 * std_dev_ms,
        mean_ms >= 6 * std_dev_ms ==> r as int >= mean_ms - 6 * std_dev_ms,
{
    let mut acc: u128 = 0;
    let mut i: usize = 0;
    while i < 12
        invariant
            i <= 12,
            acc <= i as int * std_dev_ms as int,
            std_dev_ms == 0 ==> acc == 0,
        decreases 12 - i,
    {
        let draw = random_in_range(0, std_dev_ms);
        proof {
            assert(acc + draw <= (i as int + 1) * std_dev_ms as int && (i as int + 1)
                * std_dev_ms as int <= 12 * std_dev_ms as int) by (nonlinear_arith)
                requires
                    acc <= i as int * std_dev_ms as int,
                    draw <= std_dev_ms,
                    0 <= i as int <= 11,
            ;
        }
        acc = acc + draw as u128;
        i += 1;
    }
    let value: u128 = mean_ms as u128 + acc;
    let base: u128 = 6 * std_dev_ms as u128;
    let shifted: u128 = if value > base {
        value - base
    } else {
        0
    };
    if shifted > u64::MAX as u128 {
        u64::MAX
    } else {
        shifted as u64
    }
}

/// Relies on `rand::random_range` over `0..1_000_000`: a uniform draw used
/// as a probability in parts per million. Which value comes back is left
/// open.
#[verifier::external_body]
fn random_ppm() -> (r: u32)
    ensures
        r < 1000000,
{
    rand::random_range(0u32..1000000u32)
}

impl DelayConfig {
    /// Draws a delay: `fixed` yields its value; `random` a uniform value in
    /// its range (an empty range draws its lower bound, so that no rule can
    /// abort a request); `normal` an approximately normal sample clamped
    /// below at zero (exactly the mean when the deviation is zero); `spike`
    /// its spike value with the configured probability, its base value
    /// otherwise.
    pub fn calculate_delay(&self) -> (r: u64)
        ensures
            draw_in_range(*self, r),
    {
        match self {
            DelayConfig::Fixed { delay_ms } => *delay_ms,
            DelayConfig::Random { min_ms, max_ms } => {
                if *min_ms <= *max_ms {
                    random_in_range(*min_ms, *max_ms)
                } else {
                    *min_ms
                }
            },
            DelayConfig::Normal { mean_ms, std_dev_ms } => normal_draw(*mean_ms, *std_dev_ms),
            DelayConfig::Spike { base_delay_ms, spike_delay_ms, spike_probability_ppm } => {
                let roll = random_ppm();
                if roll < *spike_probability_ppm {
                    *spike_delay_ms
                } else {
                    *base_delay_ms
                }
            },
        }
    }
}

impl LatencyRule {
    pub fn clone_rule(&self) -> (r: Self)
        ensures
            same_latency(r, *self),
    {
        LatencyRule {
            id: self.id.clone(),
            name: self.name.clone(),
            enabled: self.enabled,
            priority: self.priority,
            match_request: LatencyMatch {
                method: self.match_request.method.clone(),
                url_pattern: self.match_request.url_pattern.clone(),
                url_match_type: self.match_request.url_match_type,
                apply_to: self.match_request.apply_to,
            },
            delay: self.delay,
            created_at: self.created_at,
        }
    }

    /// Evaluates this rule's predicate against a request.
    pub fn matches(&self, method: &str, url: &str) -> (r: bool)
        ensures
            r == latency_matches(*self, method@, url@),
    {
        predicate_matches(
            &self.match_request.method,
            self.match_request.url_match_type,
            self.match_request.url_pattern.as_str(),
            method,
            url,
        )
    }
}

impl StoreEntry for LatencyRule {
    open spec fn key(&self) -> Seq<char> {
        self.id@
    }

    open spec fn prio(&self) -> int {
        self.priority as int
    }

    open spec fn active(&self) -> bool {
        self.enabled
    }

    open spec fn with_active(&self, b: bool) -> Self {
        LatencyRule { enabled: b, ..*self }
    }

    proof fn with_active_props(&self, b: bool) {
    }

    fn key_ref(&self) -> &String {
        &self.id
    }

    fn prio_val(&self) -> i32 {
        self.priority
    }

    fn enabled_val(&self) -> bool {
        self.enabled
    }

    fn set_active(&mut self, b: bool) {
        self.enabled = b;
    }
}

impl LatencyStats {
    /// Fresh counters. The minimum starts at the `u64` maximum as a
    /// sentinel; `min_delay_for_reading` reports it as zero until a sample
    /// arrives.
    pub fn new() -> (r: Self)
        ensures
            r.total_injections == 0,
            r.total_delay_ms == 0,
            r.min_delay_ms == u64::MAX,
            r.max_delay_ms == 0,
            r.avg_delay_ms == 0,
            r.by_rule@ == Seq::<RuleStats>::empty(),
    {
        LatencyStats {
            total_injections: 0,
            total_delay_ms: 0,
            min_delay_ms: u64::MAX,
            max_delay_ms: 0,
            avg_delay_ms: 0,
            by_rule: Vec::new(),
        }
    }

    /// The minimum as a caller should read it: zero while no injection has
    /// been recorded.
    pub fn min_delay_for_reading(&self) -> (r: u64)
        ensures
            r == if self.total_injections == 0 && self.min_delay_ms == u64::MAX {
                0u64
            } else {
                self.min_delay_ms
            },
    {
        if self.total_injections == 0 && self.min_delay_ms == u64::MAX {
            0
        } else {
            self.min_delay_ms
        }
    }
}


/// Saturating addition on `u64`, as the stats counters use it.
pub open spec fn sat_add(a: u64, b: u64) -> u64 {
    if a + b > u64::MAX {
        u64::MAX
    } else {
        (a + b) as u64
    }
}

/// The first stats entry recorded for `id`, if any.
pub open spec fn rstats_lookup(s: Seq<RuleStats>, id: Seq<char>) -> Option<RuleStats>
    decreases s.len(),
{
    if s.len() == 0 {
        None
    } else if s[0].rule_id@ == id {
        Some(s[0])
    } else {
        rstats_lookup(s.drop_first(), id)
    }
}

proof fn lemma_rstats_first(s: Seq<RuleStats>, i: int, id: Seq<char>)
    requires
        0 <= i < s.len(),
        forall|q: int| 0 <= q < i ==> (#[trigger] s[q]).rule_id@ != id,
        s[i].rule_id@ == id,
    ensures
        rstats_lookup(s, id) == Some(s[i]),
    decreases i,
{
    if i == 0 {
    } else {
        assert(s.drop_first()[i - 1] == s[i]);
        assert(forall|q: int|
            0 <= q < i - 1 ==> (#[trigger] s.drop_first()[q]).rule_id@ != id);
        lemma_rstats_first(s.drop_first(), i - 1, id);
    }
}

proof fn lemma_rstats_absent(s: Seq<RuleStats>, id: Seq<char>)
    requires
        rstats_lookup(s, id) is None,
    ensures
        forall|q: int| 0 <= q < s.len() ==> (#[trigger] s[q]).rule_id@ != id,
    decreases s.len(),
{
    if s.len() > 0 {
        lemma_rstats_absent(s.drop_first(), id);
        assert forall|q: int| 0 <= q < s.len() implies (#[trigger] s[q]).rule_id@ != id by {
            if q > 0 {
                assert(s.drop_first()[q - 1] == s[q]);
            }
        }
    }
}

proof fn lemma_rstats_update(s: Seq<RuleStats>, i: int, p: RuleStats)
    requires
        0 <= i < s.len(),
        forall|q: int| 0 <= q < i ==> (#[trigger] s[q]).rule_id@ != p.rule_id@,
        s[i].rule_id@ == p.rule_id@,
    ensures
        rstats_lookup(s.update(i, p), p.rule_id@) == Some(p),
        forall|k: Seq<char>|
            k != p.rule_id@ ==> #[trigger] rstats_lookup(s.update(i, p), k) == rstats_lookup(
                s,
                k,
            ),
    decreases s.len(),
{
    let t = s.update(i, p);
    if i == 0 {
        assert(t[0] == p);
        assert(t.drop_first() =~= s.drop_first());
        assert forall|k: Seq<char>| k != p.rule_id@ implies #[trigger] rstats_lookup(t, k)
            == rstats_lookup(s, k) by {
            assert(rstats_lookup(t, k) == rstats_lookup(t.drop_first(), k));
            assert(rstats_lookup(s, k) == rstats_lookup(s.drop_first(), k));
        }
    } else {
        assert(t[0] == s[0]);
        assert(t.drop_first() =~= s.drop_first().update(i - 1, p));
        assert(forall|q: int|
            0 <= q < i - 1 ==> (#[trigger] s.drop_first()[q]).rule_id@ != p.rule_id@);
        lemma_rstats_update(s.drop_first(), i - 1, p);
        assert(s[0].rule_id@ != p.rule_id@);
        assert(rstats_lookup(t, p.rule_id@) == rstats_lookup(t.drop_first(), p.rule_id@));
        assert forall|k: Seq<char>| k != p.rule_id@ implies #[trigger] rstats_lookup(t, k)
            == rstats_lookup(s, k) by {
            if s[0].rule_id@ == k {
            } else {
                assert(rstats_lookup(t, k) == rstats_lookup(t.drop_first(), k));
                assert(rstats_lookup(s, k) == rstats_lookup(s.drop_first(), k));
            }
        }
    }
}

proof fn lemma_rstats_push(s: Seq<RuleStats>, p: RuleStats)
    requires
        rstats_lookup(s, p.rule_id@) is None,
    ensures
        rstats_lookup(s.push(p), p.rule_id@) == Some(p),
        forall|k: Seq<char>|
            k != p.rule_id@ ==> #[trigger] rstats_lookup(s.push(p), k) == rstats_lookup(s, k),
    decreases s.len(),
{
    let t = s.push(p);
    if s.len() == 0 {
        assert(t[0] == p);
        assert(t.drop_first() =~= Seq::<RuleStats>::empty());
        assert forall|k: Seq<char>| k != p.rule_id@ implies #[trigger] rstats_lookup(t, k)
            == rstats_lookup(s, k) by {
            assert(rstats_lookup(t, k) == rstats_lookup(t.drop_first(), k));
        }
    } else {
        assert(t[0] == s[0]);
        assert(s[0].rule_id@ != p.rule_id@);
        assert(t.drop_first() =~= s.drop_first().push(p));
        lemma_rstats_push(s.drop_first(), p);
        assert(rstats_lookup(t, p.rule_id@) == rstats_lookup(t.drop_first(), p.rule_id@));
        assert forall|k: Seq<char>| k != p.rule_id@ implies #[trigger] rstats_lookup(t, k)
            == rstats_lookup(s, k) by {
            if s[0].rule_id@ == k {
            } else {
                assert(rstats_lookup(t, k) == rstats_lookup(t.drop_first(), k));
                assert(rstats_lookup(s, k) == rstats_lookup(s.drop_first(), k));
            }
        }
    }
}

/// The position of the first stats entry for `rule_id`.
fn rstats_index(v: &Vec<RuleStats>, rule_id: &str) -> (r: Option<usize>)
    ensures
        match r {
            Some(i) => {
                &&& i < v@.len()
                &&& v@[i as int].rule_id@ == rule_id@
                &&& forall|q: int| 0 <= q < i ==> (#[trigger] v@[q]).rule_id@ != rule_id@
            },
            None => rstats_lookup(v@, rule_id@) is None,
        },
{
    let n = v.len();
    let mut i: usize = 0;
    proof {
        assert(v@.skip(0) =~= v@);
    }
    while i < n
        invariant
            i <= n,
            n == v@.len(),
            forall|q: int| 0 <= q < i ==> (#[trigger] v@[q]).rule_id@ != rule_id@,
            rstats_lookup(v@, rule_id@) == rstats_lookup(v@.skip(i as int), rule_id@),
        decreases n - i,
    {
        proof {
            assert(v@.skip(i as int)[0] == v@[i as int]);
            assert(v@.skip(i as int).drop_first() =~= v@.skip(i + 1));
        }
        if crate::strutil::str_eq(v[i].rule_id.as_str(), rule_id) {
            return Some(i);
        }
        i += 1;
    }
    proof {
        assert(v@.skip(n as int) =~= Seq::<RuleStats>::empty());
    }
    None
}

/// What recording one injection of `d` milliseconds under a rule does to the
/// counters: saturating sums, running extrema, a recomputed average, and the
/// rule's own entry bumped (or opened, keeping the rule's name).
pub open spec fn records_delay(
    pre: LatencyStats,
    post: LatencyStats,
    id: Seq<char>,
    name: Seq<char>,
    d: u64,
) -> bool {
    &&& post.total_injections == sat_add(pre.total_injections, 1)
    &&& post.total_delay_ms == sat_add(pre.total_delay_ms, d)
    &&& post.min_delay_ms == if d < pre.min_delay_ms {
        d
    } else {
        pre.min_delay_ms
    }
    &&& post.max_delay_ms == if d > pre.max_delay_ms {
        d
    } else {
        pre.max_delay_ms
    }
    &&& post.avg_delay_ms == post.total_delay_ms / post.total_injections
    &&& ({
        let entry = rstats_lookup(post.by_rule@, id);
        &&& entry is Some
        &&& match rstats_lookup(pre.by_rule@, id) {
            Some(e) => {
                &&& entry.unwrap().rule_id == e.rule_id
                &&& entry.unwrap().rule_name == e.rule_name
                &&& entry.unwrap().hits == sat_add(e.hits, 1)
                &&& entry.unwrap().total_delay_ms == sat_add(e.total_delay_ms, d)
                &&& entry.unwrap().avg_delay_ms == entry.unwrap().total_delay_ms
                    / entry.unwrap().hits
            },
            None => {
                &&& entry.unwrap().rule_id@ == id
                &&& entry.unwrap().rule_name@ == name
                &&& entry.unwrap().hits == 1
                &&& entry.unwrap().total_delay_ms == d
                &&& entry.unwrap().avg_delay_ms == d
            },
        }
    })
    &&& forall|k: Seq<char>|
        k != id ==> #[trigger] rstats_lookup(post.by_rule@, k) == rstats_lookup(pre.by_rule@, k)
}

impl RuleStats {
    pub fn clone_stats(&self) -> (r: Self)
        ensures
            r == *self,
    {
        RuleStats {
            rule_id: self.rule_id.clone(),
            rule_name: self.rule_name.clone(),
            hits: self.hits,
            total_delay_ms: self.total_delay_ms,
            avg_delay_ms: self.avg_delay_ms,
        }
    }
}

/// The counters' internal consistency: untouched counters sit at their
/// initial values (the minimum at its sentinel); once something was
/// recorded, the minimum does not exceed the maximum and the averages are
/// the quotients of their sums; every per-rule entry has been hit.
pub open spec fn stats_wf(s: LatencyStats) -> bool {
    &&& (s.total_injections == 0 ==> s.total_delay_ms == 0 && s.min_delay_ms == u64::MAX
        && s.max_delay_ms == 0 && s.avg_delay_ms == 0 && s.by_rule@.len() == 0)
    &&& (s.total_injections > 0 ==> s.min_delay_ms <= s.max_delay_ms && s.avg_delay_ms
        == s.total_delay_ms / s.total_injections)
    &&& forall|i: int|
        0 <= i < s.by_rule@.len() ==> (#[trigger] s.by_rule@[i]).hits > 0 && s.by_rule@[i].avg_delay_ms
            == s.by_rule@[i].total_delay_ms / s.by_rule@[i].hits
}

/// The set of latency rules and the injection counters.
pub struct LatencyInjector {
    rules: RuleStore<LatencyRule>,
    stats: LatencyStats,
}

/// A latency rule takes part in an injection on `side` when it is enabled,
/// its predicate matches, and its side covers `side`.
pub open spec fn latency_applicable(
    rule: LatencyRule,
    method: Seq<char>,
    url: Seq<char>,
    side: ApplyTo,
) -> bool {
    &&& rule.enabled
    &&& latency_matches(rule, method, url)
    &&& side_applies(rule.match_request.apply_to, side)
}

impl LatencyInjector {
    /// The rules currently held, in insertion order.
    pub closed spec fn rules(&self) -> Seq<LatencyRule> {
        self.rules.rules()
    }

    /// The injection counters.
    pub closed spec fn stats(&self) -> LatencyStats {
        self.stats
    }

    /// The rules' ids are pairwise distinct and the counters are consistent.
    pub open spec fn wf(&self) -> bool {
        crate::store::keys_unique(self.rules()) && stats_wf(self.stats())
    }

    pub fn new() -> (r: Self)
        ensures
            r.wf(),
            r.rules() == Seq::<LatencyRule>::empty(),
            r.stats().total_injections == 0,
            r.stats().total_delay_ms == 0,
            r.stats().min_delay_ms == u64::MAX,
            r.stats().max_delay_ms == 0,
            r.stats().avg_delay_ms == 0,
            r.stats().by_rule@ == Seq::<RuleStats>::empty(),
    {
        LatencyInjector { rules: RuleStore::new(), stats: LatencyStats::new() }
    }

    /// Creates a rule from the given fields under a fresh id.
    pub fn add_rule(&mut self, create_rule: CreateLatencyRule) -> (id: String)
        requires
            old(self).wf(),
        ensures
            final(self).wf(),
            final(self).stats() == old(self).stats(),
            ({
                let e = lookup(final(self).rules(), id@);
                &&& e is Some
                &&& e.unwrap().id@ == id@
                &&& e.unwrap().name == create_rule.name
                &&& e.unwrap().enabled == create_rule.enabled
                &&& e.unwrap().priority == create_rule.priority
                &&& e.unwrap().match_request == create_rule.match_request
                &&& e.unwrap().delay == create_rule.delay
            }),
            forall|k: Seq<char>|
                k != id@ ==> #[trigger] lookup(final(self).rules(), k) == lookup(
                    old(self).rules(),
                    k,
                ),
            !has_key(old(self).rules(), id@),
            final(self).rules().len() == old(self).rules().len() + 1,
    {
        let id = self.rules.fresh_key();
        let rule = LatencyRule {
            id: id.clone(),
            name: create_rule.name,
            enabled: create_rule.enabled,
            priority: create_rule.priority,
            match_request: create_rule.match_request,
            delay: create_rule.delay,
            created_at: now_millis(),
        };
        self.rules.upsert(rule);
        id
    }

    /// Replaces the rule with the given id, keeping its creation stamp.
    pub fn update_rule(&mut self, update_rule: UpdateLatencyRule) -> (r: bool)
        requires
            old(self).wf(),
        ensures
            final(self).wf(),
            final(self).stats() == old(self).stats(),
            r == has_key(old(self).rules(), update_rule.id@),
            r ==> ({
                let e = lookup(final(self).rules(), update_rule.id@);
                &&& e is Some
                &&& e.unwrap().id == update_rule.id
                &&& e.unwrap().name == update_rule.name
                &&& e.unwrap().enabled == update_rule.enabled
                &&& e.unwrap().priority == update_rule.priority
                &&& e.unwrap().match_request == update_rule.match_request
                &&& e.unwrap().delay == update_rule.delay
                &&& e.unwrap().created_at == lookup(
                    old(self).rules(),
                    update_rule.id@,
                ).unwrap().created_at
            }),
            !r ==> final(self).rules() == old(self).rules(),
            forall|k: Seq<char>|
                k != update_rule.id@ ==> #[trigger] lookup(final(self).rules(), k) == lookup(
                    old(self).rules(),
                    k,
                ),
            final(self).rules().len() == old(self).rules().len(),
    {
        let created: Option<u64> = match self.rules.get(update_rule.id.as_str()) {
            Some(e) => Some(e.created_at),
            None => None,
        };
        match created {
            Some(created_at) => {
                let rule = LatencyRule {
                    id: update_rule.id,
                    name: update_rule.name,
                    enabled: update_rule.enabled,
                    priority: update_rule.priority,
                    match_request: update_rule.match_request,
                    delay: update_rule.delay,
                    created_at,
                };
                self.rules.upsert(rule);
                true
            },
            None => false,
        }
    }

    /// Deletes the rule with this id.
    pub fn delete_rule(&mut self, id: &str) -> (r: bool)
        requires
            old(self).wf(),
        ensures
            final(self).wf(),
            r == has_key(old(self).rules(), id@),
            lookup(final(self).rules(), id@) == None::<LatencyRule>,
            forall|k: Seq<char>|
                k != id@ ==> #[trigger] lookup(final(self).rules(), k) == lookup(
                    old(self).rules(),
                    k,
                ),
            final(self).rules().len() == old(self).rules().len() - (if has_key(
                old(self).rules(),
                id@,
            ) {
                1int
            } else {
                0int
            }),
    {
        self.rules.remove(id)
    }

    /// A copy of the rule with this id.
    pub fn get_rule(&self, id: &str) -> (r: Option<LatencyRule>)
        requires
            self.wf(),
        ensures
            match r {
                Some(m) => lookup(self.rules(), id@) is Some && same_latency(
                    m,
                    lookup(self.rules(), id@).unwrap(),
                ),
                None => lookup(self.rules(), id@) is None,
            },
    {
        match self.rules.get(id) {
            Some(e) => Some(e.clone_rule()),
            None => None,
        }
    }

    /// Copies of all rules, sorted by priority descending.
    pub fn get_all_rules(&self) -> (r: Vec<LatencyRule>)
        ensures
            r@.len() == self.rules().len(),
            forall|i: int, j: int| 0 <= i < j < r@.len() ==> r@[i].priority >= r@[j].priority,
            forall|i: int|
                0 <= i < r@.len() ==> some_same_latency(self.rules(), #[trigger] r@[i]),
            forall|k: int|
                0 <= k < self.rules().len() ==> some_same_latency(
                    r@,
                    #[trigger] self.rules()[k],
                ),
    {
        let refs = self.rules.list_sorted();
        let n = refs.len();
        let mut r: Vec<LatencyRule> = Vec::new();
        let mut i: usize = 0;
        while i < n
            invariant
                i <= n,
                n == refs@.len(),
                refs@.len() == self.rules().len(),
                r@.len() == i,
                forall|a: int, b: int|
                    0 <= a < b < refs@.len() ==> refs@[a].prio() >= refs@[b].prio(),
                forall|a: int|
                    0 <= a < refs@.len() ==> self.rules().contains(#[trigger] *refs@[a]),
                forall|a: int|
                    0 <= a < self.rules().len() ==> crate::store::appears(
                        refs@,
                        #[trigger] self.rules()[a],
                    ),
                forall|a: int| 0 <= a < i ==> same_latency(#[trigger] r@[a], *refs@[a]),
            decreases n - i,
        {
            r.push(refs[i].clone_rule());
            i += 1;
        }
        proof {
            assert forall|a: int, b: int| 0 <= a < b < r@.len() implies r@[a].priority
                >= r@[b].priority by {
                assert(same_latency(r@[a], *refs@[a]));
                assert(same_latency(r@[b], *refs@[b]));
            }
            assert forall|a: int| 0 <= a < r@.len() implies some_same_latency(
                self.rules(),
                #[trigger] r@[a],
            ) by {
                assert(self.rules().contains(*refs@[a]));
                let k = choose|k: int|
                    0 <= k < self.rules().len() && #[trigger] self.rules()[k] == *refs@[a];
                assert(same_latency(r@[a], self.rules()[k]));
            }
            assert forall|k: int| 0 <= k < self.rules().len() implies some_same_latency(
                r@,
                #[trigger] self.rules()[k],
            ) by {
                assert(crate::store::appears(refs@, self.rules()[k]));
                let w = choose|w: int|
                    0 <= w < refs@.len() && *(#[trigger] refs@[w]) == self.rules()[k];
                assert(same_latency(self.rules()[k], r@[w]));
            }
        }
        r
    }

    /// Flips the enabled flag of the rule with this id.
    pub fn toggle_rule(&mut self, id: &str) -> (r: bool)
        requires
            old(self).wf(),
        ensures
            final(self).wf(),
            r == has_key(old(self).rules(), id@),
            r ==> ({
                let e = lookup(old(self).rules(), id@).unwrap();
                lookup(final(self).rules(), id@) == Some(e.with_active(!e.active()))
            }),
            !r ==> final(self).rules() == old(self).rules(),
            forall|k: Seq<char>|
                k != id@ ==> #[trigger] lookup(final(self).rules(), k) == lookup(
                    old(self).rules(),
                    k,
                ),
            final(self).rules().len() == old(self).rules().len(),
    {
        self.rules.toggle(id)
    }

    /// Removes every rule and resets the counters.
    pub fn clear_all(&mut self)
        ensures
            final(self).wf(),
            final(self).rules() == Seq::<LatencyRule>::empty(),
            final(self).stats().total_injections == 0,
            final(self).stats().by_rule@ == Seq::<RuleStats>::empty(),
    {
        self.rules.clear();
        self.stats = LatencyStats::new();
    }

    /// The highest-priority rule applicable to an injection on `side`;
    /// among rules of equal priority, the one stored earliest.
    pub fn find_matching_rule(&self, method: &str, url: &str, apply_to: ApplyTo) -> (r: Option<
        LatencyRule,
    >)
        ensures
            match r {
                Some(m) => {
                    &&& exists|j: int|
                        0 <= j < self.rules().len() && latency_applicable(
                            #[trigger] self.rules()[j],
                            method@,
                            url@,
                            apply_to,
                        ) && same_latency(m, self.rules()[j])
                    &&& forall|k: int|
                        0 <= k < self.rules().len() && latency_applicable(
                            #[trigger] self.rules()[k],
                            method@,
                            url@,
                            apply_to,
                        ) ==> self.rules()[k].priority <= m.priority
                },
                None => forall|k: int|
                    0 <= k < self.rules().len() ==> !latency_applicable(
                        #[trigger] self.rules()[k],
                        method@,
                        url@,
                        apply_to,
                    ),
            },
    {
        let n = self.rules.len();
        let mut best: Option<&LatencyRule> = None;
        let mut i: usize = 0;
        while i < n
            invariant
                i <= n,
                n == self.rules().len(),
                match best {
                    Some(b) => {
                        &&& exists|j: int|
                            0 <= j < i && latency_applicable(
                                #[trigger] self.rules()[j],
                                method@,
                                url@,
                                apply_to,
                            ) && *b == self.rules()[j]
                        &&& forall|k: int|
                            0 <= k < i && latency_applicable(
                                #[trigger] self.rules()[k],
                                method@,
                                url@,
                                apply_to,
                            ) ==> self.rules()[k].priority <= b.priority
                    },
                    None => forall|k: int|
                        0 <= k < i ==> !latency_applicable(
                            #[trigger] self.rules()[k],
                            method@,
                            url@,
                            apply_to,
                        ),
                },
            decreases n - i,
        {
            let e = self.rules.entry_at(i);
            let side_ok = match (&e.match_request.apply_to, &apply_to) {
                (ApplyTo::Both, _) => true,
                (ApplyTo::Request, ApplyTo::Request) => true,
                (ApplyTo::Response, ApplyTo::Response) => true,
                _ => false,
            };
            if e.enabled && side_ok && e.matches(method, url) {
                match best {
                    Some(b) => {
                        if e.priority > b.priority {
                            best = Some(e);
                        }
                    },
                    None => {
                        best = Some(e);
                    },
                }
            }
            i += 1;
        }
        match best {
            Some(b) => Some(b.clone_rule()),
            None => None,
        }
    }

    /// Records one injection in the counters.
    fn record_delay(&mut self, rule_id: &str, rule_name: &str, delay_ms: u64)
        requires
            stats_wf(old(self).stats()),
        ensures
            final(self).rules() == old(self).rules(),
            stats_wf(final(self).stats()),
            records_delay(old(self).stats(), final(self).stats(), rule_id@, rule_name@, delay_ms),
    {
        // global counters
        self.stats.total_injections = if self.stats.total_injections < u64::MAX {
            self.stats.total_injections + 1
        } else {
            u64::MAX
        };
        self.stats.total_delay_ms = if self.stats.total_delay_ms <= u64::MAX - delay_ms {
            self.stats.total_delay_ms + delay_ms
        } else {
            u64::MAX
        };
        if delay_ms < self.stats.min_delay_ms {
            self.stats.min_delay_ms = delay_ms;
        }
        if delay_ms > self.stats.max_delay_ms {
            self.stats.max_delay_ms = delay_ms;
        }
        self.stats.avg_delay_ms = self.stats.total_delay_ms / self.stats.total_injections;

        // the rule's own entry
        let ghost rs0 = self.stats.by_rule@;
        let found = rstats_index(&self.stats.by_rule, rule_id);
        match found {
            Some(fi) => {
                proof {
                    lemma_rstats_first(rs0, fi as int, rule_id@);
                }
                let mut entry = self.stats.by_rule.remove(fi);
                entry.hits = if entry.hits < u64::MAX {
                    entry.hits + 1
                } else {
                    u64::MAX
                };
                entry.total_delay_ms = if entry.total_delay_ms <= u64::MAX - delay_ms {
                    entry.total_delay_ms + delay_ms
                } else {
                    u64::MAX
                };
                entry.avg_delay_ms = entry.total_delay_ms / entry.hits;
                proof {
                    lemma_rstats_update(rs0, fi as int, entry);
                }
                self.stats.by_rule.insert(fi, entry);
                proof {
                    assert(self.stats.by_rule@ =~= rs0.update(fi as int, entry));
                }
            },
            None => {
                let entry = RuleStats {
                    rule_id: rule_id.to_owned(),
                    rule_name: rule_name.to_owned(),
                    hits: 1,
                    total_delay_ms: delay_ms,
                    avg_delay_ms: delay_ms,
                };
                proof {
                    lemma_rstats_push(rs0, entry);
                }
                self.stats.by_rule.push(entry);
                proof {
                    assert(self.stats.by_rule@ =~= rs0.push(entry));
                }
            },
        }
    }

    /// Decides the delay for an injection on `side`. A `Some(d)` means the
    /// caller must now suspend for `d` milliseconds; the injection has been
    /// recorded in the counters. `None` means nothing to do (no applicable
    /// rule, or a zero draw), and the counters are untouched.
    pub fn apply_delay(&mut self, method: &str, url: &str, apply_to: ApplyTo) -> (r: Option<u64>)
        requires
            old(self).wf(),
        ensures
            final(self).wf(),
            final(self).rules() == old(self).rules(),
            match r {
                Some(d) => d > 0 && exists|j: int|
                    #![trigger old(self).rules()[j]]
                    {
                        &&& 0 <= j < old(self).rules().len()
                        &&& latency_applicable(old(self).rules()[j], method@, url@, apply_to)
                        &&& draw_in_range(old(self).rules()[j].delay, d)
                        &&& forall|k: int|
                            0 <= k < old(self).rules().len() && latency_applicable(
                                #[trigger] old(self).rules()[k],
                                method@,
                                url@,
                                apply_to,
                            ) ==> old(self).rules()[k].priority <= old(self).rules()[j].priority
                        &&& records_delay(
                            old(self).stats(),
                            final(self).stats(),
                            old(self).rules()[j].id@,
                            old(self).rules()[j].name@,
                            d,
                        )
                    },
                None => {
                    &&& final(self).stats() == old(self).stats()
                    &&& ((forall|k: int|
                        0 <= k < old(self).rules().len() ==> !latency_applicable(
                            #[trigger] old(self).rules()[k],
                            method@,
                            url@,
                            apply_to,
                        )) || exists|j: int|
                        #![trigger old(self).rules()[j]]
                        {
                            &&& 0 <= j < old(self).rules().len()
                            &&& latency_applicable(
                                old(self).rules()[j],
                                method@,
                                url@,
                                apply_to,
                            )
                            &&& draw_in_range(old(self).rules()[j].delay, 0)
                            &&& forall|k: int|
                                0 <= k < old(self).rules().len() && latency_applicable(
                                    #[trigger] old(self).rules()[k],
                                    method@,
                                    url@,
                                    apply_to,
                                ) ==> old(self).rules()[k].priority
                                    <= old(self).rules()[j].priority
                        })
                },
            },
    {
        let rule = match self.find_matching_rule(method, url, apply_to) {
            Some(rule) => rule,
            None => {
                return None;
            },
        };
        let delay_ms = rule.delay.calculate_delay();
        if delay_ms > 0 {
            self.record_delay(rule.id.as_str(), rule.name.as_str(), delay_ms);
            Some(delay_ms)
        } else {
            proof {
                let j = choose|j: int|
                    0 <= j < self.rules().len() && latency_applicable(
                        #[trigger] self.rules()[j],
                        method@,
                        url@,
                        apply_to,
                    ) && same_latency(rule, self.rules()[j]);
                assert(self.rules()[j].delay == rule.delay);
                assert(draw_in_range(self.rules()[j].delay, 0));
                assert(self.rules()[j].priority == rule.priority);
            }
            None
        }
    }

    /// A copy of the counters, raw: while nothing was recorded the minimum
    /// still holds its sentinel; a reader that wants the design's
    /// zero-for-empty minimum goes through `min_delay_for_reading`.
    pub fn get_stats(&self) -> (r: LatencyStats)
        requires
            self.wf(),
        ensures
            stats_wf(r),
            r.total_injections == self.stats().total_injections,
            r.total_delay_ms == self.stats().total_delay_ms,
            r.min_delay_ms == self.stats().min_delay_ms,
            r.max_delay_ms == self.stats().max_delay_ms,
            r.avg_delay_ms == self.stats().avg_delay_ms,
            r.by_rule@ == self.stats().by_rule@,
    {
        let n = self.stats.by_rule.len();
        let mut by_rule: Vec<RuleStats> = Vec::new();
        let mut i: usize = 0;
        while i < n
            invariant
                i <= n,
                n == self.stats().by_rule@.len(),
                by_rule@ == self.stats().by_rule@.subrange(0, i as int),
            decreases n - i,
        {
            by_rule.push(self.stats.by_rule[i].clone_stats());
            proof {
                assert(by_rule@ =~= self.stats().by_rule@.subrange(0, i + 1));
            }
            i += 1;
        }
        proof {
            assert(self.stats().by_rule@.subrange(0, n as int) =~= self.stats().by_rule@);
        }
        LatencyStats {
            total_injections: self.stats.total_injections,
            total_delay_ms: self.stats.total_delay_ms,
            min_delay_ms: self.stats.min_delay_ms,
            max_delay_ms: self.stats.max_delay_ms,
            avg_delay_ms: self.stats.avg_delay_ms,
            by_rule,
        }
    }

    /// Resets the counters; the rules stay.
    pub fn reset_stats(&mut self)
        requires
            old(self).wf(),
        ensures
            final(self).wf(),
            final(self).rules() == old(self).rules(),
            final(self).stats().total_injections == 0,
            final(self).stats().total_delay_ms == 0,
            final(self).stats().min_delay_ms == u64::MAX,
            final(self).stats().max_delay_ms == 0,
            final(self).stats().avg_delay_ms == 0,
            final(self).stats().by_rule@ == Seq::<RuleStats>::empty(),
    {
        self.stats = LatencyStats::new();
    }
}

} // verus!
