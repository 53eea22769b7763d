//! The mock engine: rules that short-circuit a request with a synthetic
//! response. The highest-priority enabled rule whose predicate matches wins.
use vstd::prelude::*;

use crate::headers::clone_headers;
use crate::ids::now_millis;
use crate::matcher::{predicate_holds, predicate_matches, view_method, MatchType};
use crate::store::{has_key, lookup, RuleStore, StoreEntry};

verus! {

/// The synthetic response a mock rule produces.
pub struct MockResponse {
    pub status: u16,
    pub headers: Vec<(String, String)>,
    pub body: String,
}

/// A stored mock rule.
pub struct MockRule {
    pub id: String,
    pub name: String,
    pub enabled: bool,
    pub priority: i32,
    pub method: Option<String>,
    pub url_pattern: String,
    pub url_match_type: MatchType,
    pub response: MockResponse,
    pub delay_ms: Option<u64>,
    pub created_at: u64,
}

/// The fields a caller provides to create a mock rule.
pub struct CreateMockRule {
    pub name: String,
    pub enabled: bool,
    pub priority: i32,
    pub method: Option<String>,
    pub url_pattern: String,
    pub url_match_type: MatchType,
    pub response: MockResponse,
    pub delay_ms: Option<u64>,
}

/// The fields a caller provides to replace a mock rule.
pub struct UpdateMockRule {
    pub id: String,
    pub name: String,
    pub enabled: bool,
    pub priority: i32,
    pub method: Option<String>,
    pub url_pattern: String,
    pub url_match_type: MatchType,
    pub response: MockResponse,
    pub delay_ms: Option<u64>,
}

/// Responses with the same status, the same header pairs and the same body.
pub open spec fn same_mock_response(a: MockResponse, b: MockResponse) -> bool {
    a.status == b.status && a.headers@ == b.headers@ && a.body == b.body
}

/// Rules that agree field for field (header lists compared by contents).
pub open spec fn same_mock(a: MockRule, b: MockRule) -> bool {
    &&& a.id == b.id
    &&& a.name == b.name
    &&& a.enabled == b.enabled
    &&& a.priority == b.priority
    &&& a.method == b.method
    &&& a.url_pattern == b.url_pattern
    &&& a.url_match_type == b.url_match_type
    &&& same_mock_response(a.response, b.response)
    &&& a.delay_ms == b.delay_ms
    &&& a.created_at == b.created_at
}

/// Some rule in `s` agrees with `m` field for field.
pub open spec fn some_same_mock(s: Seq<MockRule>, m: MockRule) -> bool {
    exists|k: int| 0 <= k < s.len() && same_mock(m, #[trigger] s[k])
}

/// Whether a rule's predicate accepts the request.
pub open spec fn mock_matches(rule: MockRule, method: Seq<char>, url: Seq<char>) -> bool {
    predicate_holds(view_method(&rule.method), rule.url_match_type, rule.url_pattern@, method, url)
}

impl MockResponse {
    pub fn clone_response(&self) -> (r: Self)
        ensures
            same_mock_response(r, *self),
    {
        MockResponse {
            status: self.status,
            headers: clone_headers(&self.headers),
            body: self.body.clone(),
        }
    }
}

impl MockRule {
    pub fn clone_rule(&self) -> (r: Self)
        ensures
            same_mock(r, *self),
    {
        MockRule {
            id: self.id.clone(),
            name: self.name.clone(),
            enabled: self.enabled,
            priority: self.priority,
            method: self.method.clone(),
            url_pattern: self.url_pattern.clone(),
            url_match_type: self.url_match_type,
            response: self.response.clone_response(),
            delay_ms: self.delay_ms,
            created_at: self.created_at,
        }
    }

    /// Evaluates this rule's predicate against a request.
    pub fn matches(&self, method: &str, url: &str) -> (r: bool)
        ensures
            r == mock_matches(*self, method@, url@),
    {
        predicate_matches(&self.method, self.url_match_type, self.url_pattern.as_str(), method, url)
    }
}

impl StoreEntry for MockRule {
    open spec fn key(&self) -> Seq<char> {
        self.id@
    }

    open spec fn prio(&self) -> int {
        self.priority as int
    }

    open spec fn active(&self) -> bool {
        self.enabled
    }

    open spec fn with_active(&self, b: bool) -> Self {
        MockRule { enabled: b, ..*self }
    }

    proof fn with_active_props(&self, b: bool) {
    }

    fn key_ref(&self) -> &String {
        &self.id
    }

    fn prio_val(&self) -> i32 {
        self.priority
    }

    fn enabled_val(&self) -> bool {
        self.enabled
    }

    fn set_active(&mut self, b: bool) {
        self.enabled = b;
    }
}

/// The set of mock rules.
pub struct MockManager {
    store: RuleStore<MockRule>,
}

impl MockManager {
    /// The rules currently held, in insertion order.
    pub closed spec fn rules(&self) -> Seq<MockRule> {
        self.store.rules()
    }

    /// The rules' ids are pairwise distinct.
    pub open spec fn wf(&self) -> bool {
        crate::store::keys_unique(self.rules())
    }

    pub fn new() -> (r: Self)
        ensures
            r.wf(),
            r.rules() == Seq::<MockRule>::empty(),
    {
        MockManager { store: RuleStore::new() }
    }

    /// Creates a rule from the given fields under a fresh id, and returns
    /// that id. The new rule is found under the id; no other rule changes.
    pub fn add_rule(&mut self, create_rule: CreateMockRule) -> (id: String)
        requires
            old(self).wf(),
        ensures
            final(self).wf(),
            ({
                let e = lookup(final(self).rules(), id@);
                &&& e is Some
                &&& e.unwrap().id@ == id@
                &&& e.unwrap().name == create_rule.name
                &&& e.unwrap().enabled == create_rule.enabled
                &&& e.unwrap().priority == create_rule.priority
                &&& e.unwrap().method == create_rule.method
                &&& e.unwrap().url_pattern == create_rule.url_pattern
                &&& e.unwrap().url_match_type == create_rule.url_match_type
                &&& same_mock_response(e.unwrap().response, create_rule.response)
                &&& e.unwrap().delay_ms == create_rule.delay_ms
            }),
            forall|k: Seq<char>|
                k != id@ ==> #[trigger] lookup(final(self).rules(), k) == lookup(
                    old(self).rules(),
                    k,
                ),
            !has_key(old(self).rules(), id@),
            final(self).rules().len() == old(self).rules().len() + 1,
    {
        let id = self.store.fresh_key();
        let rule = MockRule {
            id: id.clone(),
            name: create_rule.name,
            enabled: create_rule.enabled,
            priority: create_rule.priority,
            method: create_rule.method,
            url_pattern: create_rule.url_pattern,
            url_match_type: create_rule.url_match_type,
            response: create_rule.response,
            delay_ms: create_rule.delay_ms,
            created_at: now_millis(),
        };
        self.store.upsert(rule);
        id
    }

    /// Replaces the rule whose id is `update_rule.id` with the given fields,
    /// keeping its original creation stamp; fails when the id is unknown.
    pub fn update_rule(&mut self, update_rule: UpdateMockRule) -> (r: bool)
        requires
            old(self).wf(),
        ensures
            final(self).wf(),
            r == has_key(old(self).rules(), update_rule.id@),
            r ==> ({
                let e = lookup(final(self).rules(), update_rule.id@);
                &&& e is Some
                &&& e.unwrap().id == update_rule.id
                &&& e.unwrap().name == update_rule.name
                &&& e.unwrap().enabled == update_rule.enabled
                &&& e.unwrap().priority == update_rule.priority
                &&& e.unwrap().method == update_rule.method
                &&& e.unwrap().url_pattern == update_rule.url_pattern
                &&& e.unwrap().url_match_type == update_rule.url_match_type
                &&& same_mock_response(e.unwrap().response, update_rule.response)
                &&& e.unwrap().delay_ms == update_rule.delay_ms
                &&& e.unwrap().created_at == lookup(
                    old(self).rules(),
                    update_rule.id@,
                ).unwrap().created_at
            }),
            !r ==> final(self).rules() == old(self).rules(),
            forall|k: Seq<char>|
                k != update_rule.id@ ==> #[trigger] lookup(final(self).rules(), k) == lookup(
                    old(self).rules(),
                    k,
                ),
            final(self).rules().len() == old(self).rules().len(),
    {
        let created: Option<u64> = match self.store.get(update_rule.id.as_str()) {
            Some(e) => Some(e.created_at),
            None => None,
        };
        match created {
            Some(created_at) => {
                let rule = MockRule {
                    id: update_rule.id,
                    name: update_rule.name,
                    enabled: update_rule.enabled,
                    priority: update_rule.priority,
                    method: update_rule.method,
                    url_pattern: update_rule.url_pattern,
                    url_match_type: update_rule.url_match_type,
                    response: update_rule.response,
                    delay_ms: update_rule.delay_ms,
                    created_at,
                };
                self.store.upsert(rule);
                true
            },
            None => false,
        }
    }

    /// Deletes the rule with this id; reports whether one was there.
    pub fn delete_rule(&mut self, id: &str) -> (r: bool)
        requires
            old(self).wf(),
        ensures
            final(self).wf(),
            r == has_key(old(self).rules(), id@),
            lookup(final(self).rules(), id@) == None::<MockRule>,
            forall|k: Seq<char>|
                k != id@ ==> #[trigger] lookup(final(self).rules(), k) == lookup(
                    old(self).rules(),
                    k,
                ),
            final(self).rules().len() == old(self).rules().len() - (if has_key(
                old(self).rules(),
                id@,
            ) {
                1int
            } else {
                0int
            }),
    {
        self.store.remove(id)
    }

    /// A copy of the rule with this id.
    pub fn get_rule(&self, id: &str) -> (r: Option<MockRule>)
        requires
            self.wf(),
        ensures
            match r {
                Some(m) => lookup(self.rules(), id@) is Some && same_mock(
                    m,
                    lookup(self.rules(), id@).unwrap(),
                ),
                None => lookup(self.rules(), id@) is None,
            },
    {
        match self.store.get(id) {
            Some(e) => Some(e.clone_rule()),
            None => None,
        }
    }

    /// Copies of all rules, sorted by priority descending.
    pub fn get_all_rules(&self) -> (r: Vec<MockRule>)
        ensures
            r@.len() == self.rules().len(),
            forall|i: int, j: int| 0 <= i < j < r@.len() ==> r@[i].priority >= r@[j].priority,
            forall|i: int| 0 <= i < r@.len() ==> some_same_mock(self.rules(), #[trigger] r@[i]),
            forall|k: int|
                0 <= k < self.rules().len() ==> some_same_mock(r@, #[trigger] self.rules()[k]),
    {
        let refs = self.store.list_sorted();
        let n = refs.len();
        let mut r: Vec<MockRule> = Vec::new();
        let mut i: usize = 0;
        while i < n
            invariant
                i <= n,
                n == refs@.len(),
                refs@.len() == self.rules().len(),
                r@.len() == i,
                forall|a: int, b: int|
                    0 <= a < b < refs@.len() ==> refs@[a].prio() >= refs@[b].prio(),
                forall|a: int|
                    0 <= a < refs@.len() ==> self.rules().contains(#[trigger] *refs@[a]),
                forall|a: int|
                    0 <= a < self.rules().len() ==> crate::store::appears(
                        refs@,
                        #[trigger] self.rules()[a],
                    ),
                forall|a: int| 0 <= a < i ==> same_mock(#[trigger] r@[a], *refs@[a]),
            decreases n - i,
        {
            r.push(refs[i].clone_rule());
            i += 1;
        }
        proof {
            assert forall|a: int, b: int| 0 <= a < b < r@.len() implies r@[a].priority
                >= r@[b].priority by {
                assert(same_mock(r@[a], *refs@[a]));
                assert(same_mock(r@[b], *refs@[b]));
            }
            assert forall|a: int| 0 <= a < r@.len() implies some_same_mock(
                self.rules(),
                #[trigger] r@[a],
            ) by {
                assert(self.rules().contains(*refs@[a]));
                let k = choose|k: int|
                    0 <= k < self.rules().len() && #[trigger] self.rules()[k] == *refs@[a];
                assert(same_mock(r@[a], self.rules()[k]));
            }
            assert forall|k: int| 0 <= k < self.rules().len() implies some_same_mock(
                r@,
                #[trigger] self.rules()[k],
            ) by {
                assert(crate::store::appears(refs@, self.rules()[k]));
                let w = choose|w: int|
                    0 <= w < refs@.len() && *(#[trigger] refs@[w]) == self.rules()[k];
                assert(same_mock(self.rules()[k], r@[w]));
            }
        }
        r
    }

    /// Flips the enabled flag of the rule with this id.
    pub fn toggle_rule(&mut self, id: &str) -> (r: bool)
        requires
            old(self).wf(),
        ensures
            final(self).wf(),
            r == has_key(old(self).rules(), id@),
            r ==> ({
                let e = lookup(old(self).rules(), id@).unwrap();
                lookup(final(self).rules(), id@) == Some(e.with_active(!e.active()))
            }),
            !r ==> final(self).rules() == old(self).rules(),
            forall|k: Seq<char>|
                k != id@ ==> #[trigger] lookup(final(self).rules(), k) == lookup(
                    old(self).rules(),
                    k,
                ),
            final(self).rules().len() == old(self).rules().len(),
    {
        self.store.toggle(id)
    }

    /// Removes every rule.
    pub fn clear_all(&mut self)
        ensures
            final(self).wf(),
            final(self).rules() == Seq::<MockRule>::empty(),
    {
        self.store.clear();
    }

    /// The highest-priority enabled rule whose predicate accepts the request;
    /// among rules of equal priority, the one stored earliest.
    pub fn find_matching_rule(&self, method: &str, url: &str) -> (r: Option<MockRule>)
        ensures
            match r {
                Some(m) => {
                    &&& exists|j: int|
                        0 <= j < self.rules().len() && (#[trigger] self.rules()[j]).enabled
                            && mock_matches(self.rules()[j], method@, url@) && same_mock(
                            m,
                            self.rules()[j],
                        )
                    &&& forall|k: int|
                        0 <= k < self.rules().len() && (#[trigger] self.rules()[k]).enabled
                            && mock_matches(self.rules()[k], method@, url@)
                            ==> self.rules()[k].priority <= m.priority
                },
                None => forall|k: int|
                    0 <= k < self.rules().len() ==> !((#[trigger] self.rules()[k]).enabled
                        && mock_matches(self.rules()[k], method@, url@)),
            },
    {
        let n = self.store.len();
        let mut best: Option<&MockRule> = None;
        let mut i: usize = 0;
        while i < n
            invariant
                i <= n,
                n == self.rules().len(),
                match best {
                    Some(b) => {
                        &&& exists|j: int|
                            0 <= j < i && (#[trigger] self.rules()[j]).enabled && mock_matches(
                                self.rules()[j],
                                method@,
                                url@,
                            ) && *b == self.rules()[j]
                        &&& forall|k: int|
                            0 <= k < i && (#[trigger] self.rules()[k]).enabled && mock_matches(
                                self.rules()[k],
                                method@,
                                url@,
                            ) ==> self.rules()[k].priority <= b.priority
                    },
                    None => forall|k: int|
                        0 <= k < i ==> !((#[trigger] self.rules()[k]).enabled && mock_matches(
                            self.rules()[k],
                            method@,
                            url@,
                        )),
                },
            decreases n - i,
        {
            let e = self.store.entry_at(i);
            if e.enabled && e.matches(method, url) {
                match best {
                    Some(b) => {
                        if e.priority > b.priority {
                            best = Some(e);
                        }
                    },
                    None => {
                        best = Some(e);
                    },
                }
            }
            i += 1;
        }
        match best {
            Some(b) => Some(b.clone_rule()),
            None => None,
        }
    }
}

} // verus!
