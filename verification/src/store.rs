//! The generic rule store shared by the mock, modifier, rate-limit and
//! latency engines: a collection of rules with distinct string ids, looked up
//! by id and listed in priority order.
use vstd::prelude::*;
use vstd::pervasive::VecAdditionalExecFns;

verus! {

/// A rule that can live in a store: it has a string id, a priority, an
/// enabled flag, and a creation stamp that updates must preserve.
pub trait StoreEntry: Sized {
    /// The rule's id.
    spec fn key(&self) -> Seq<char>;

    /// The rule's priority; a higher one wins.
    spec fn prio(&self) -> int;

    /// Whether the rule is enabled.
    spec fn active(&self) -> bool;

    /// The same rule with its enabled flag set to `b`.
    spec fn with_active(&self, b: bool) -> Self;

    /// Flipping the flag touches nothing else.
    proof fn with_active_props(&self, b: bool)
        ensures
            self.with_active(b).key() == self.key(),
            self.with_active(b).prio() == self.prio(),
            self.with_active(b).active() == b,
    ;

    fn key_ref(&self) -> (r: &String)
        ensures
            r@ == self.key(),
    ;

    fn prio_val(&self) -> (r: i32)
        ensures
            r as int == self.prio(),
    ;

    fn enabled_val(&self) -> (r: bool)
        ensures
            r == self.active(),
    ;

    fn set_active(&mut self, b: bool)
        ensures
            *final(self) == old(self).with_active(b),
    ;
}

/// No two rules share an id.
pub open spec fn keys_unique<T: StoreEntry>(s: Seq<T>) -> bool {
    forall|i: int, j: int|
        0 <= i < j < s.len() ==> #[trigger] s[i].key() != #[trigger] s[j].key()
}

/// Some rule in `s` has id `k`.
pub open spec fn has_key<T: StoreEntry>(s: Seq<T>, k: Seq<char>) -> bool {
    exists|i: int| 0 <= i < s.len() && #[trigger] s[i].key() == k
}

/// The index of the rule with id `k` (meaningful only when one exists).
pub open spec fn key_idx<T: StoreEntry>(s: Seq<T>, k: Seq<char>) -> int {
    choose|i: int| 0 <= i < s.len() && #[trigger] s[i].key() == k
}

/// `x` is one of the referenced values in `r`.
pub open spec fn appears<T>(r: Seq<&T>, x: T) -> bool {
    exists|k: int| 0 <= k < r.len() && *(#[trigger] r[k]) == x
}

/// The rule with id `k`, if any.
pub open spec fn lookup<T: StoreEntry>(s: Seq<T>, k: Seq<char>) -> Option<T> {
    if has_key(s, k) {
        Some(s[key_idx(s, k)])
    } else {
        None
    }
}

/// With distinct ids, looking up the id of the rule at `i` yields that rule.
pub proof fn lemma_lookup_at<T: StoreEntry>(s: Seq<T>, i: int)
    requires
        keys_unique(s),
        0 <= i < s.len(),
    ensures
        lookup(s, s[i].key()) == Some(s[i]),
{
    assert(has_key(s, s[i].key()));
    let j = key_idx(s, s[i].key());
    assert(0 <= j < s.len() && s[j].key() == s[i].key());
    if i != j {
        assert(false);
    }
}

/// A lookup that answers holds a stored rule bearing the asked id: what
/// `add` or `update` leave behind is a rule the store physically holds.
pub proof fn lemma_lookup_some_is_stored<T: StoreEntry>(s: Seq<T>, k: Seq<char>)
    requires
        lookup(s, k) is Some,
    ensures
        exists|i: int|
            0 <= i < s.len() && #[trigger] s[i] == lookup(s, k).unwrap() && s[i].key() == k,
{
    let j = key_idx(s, k);
    assert(0 <= j < s.len() && s[j].key() == k);
}

/// A lookup that answers nothing means no stored rule bears the id: after a
/// delete, the rule is gone from the store itself.
pub proof fn lemma_lookup_none_absent<T: StoreEntry>(s: Seq<T>, k: Seq<char>)
    requires
        lookup(s, k) is None,
    ensures
        forall|i: int| 0 <= i < s.len() ==> (#[trigger] s[i]).key() != k,
{
    assert forall|i: int| 0 <= i < s.len() implies (#[trigger] s[i]).key() != k by {
        if s[i].key() == k {
            assert(has_key(s, k));
        }
    }
}

/// Replacing the rule at `i` by one with the same id keeps ids distinct and
/// leaves every other id's lookup unchanged.
proof fn lemma_lookup_update<T: StoreEntry>(s: Seq<T>, i: int, e: T)
    requires
        keys_unique(s),
        0 <= i < s.len(),
        e.key() == s[i].key(),
    ensures
        keys_unique(s.update(i, e)),
        lookup(s.update(i, e), e.key()) == Some(e),
        forall|k: Seq<char>|
            k != e.key() ==> #[trigger] lookup(s.update(i, e), k) == lookup(s, k),
{
    let t = s.update(i, e);
    assert forall|a: int, b: int| 0 <= a < b < t.len() implies #[trigger] t[a].key()
        != #[trigger] t[b].key() by {
        assert(s[a].key() != s[b].key());
    }
    lemma_lookup_at(t, i);
    assert forall|k: Seq<char>| k != e.key() implies #[trigger] lookup(t, k) == lookup(s, k) by {
        if has_key(s, k) {
            let a = key_idx(s, k);
            assert(0 <= a < s.len() && s[a].key() == k);
            assert(a != i);
            assert(t[a].key() == k);
            lemma_lookup_at(s, a);
            lemma_lookup_at(t, a);
        } else {
            if has_key(t, k) {
                let a = key_idx(t, k);
                assert(0 <= a < t.len() && t[a].key() == k);
                assert(a != i);
                assert(s[a].key() == k);
                assert(false);
            }
        }
    }
}

/// Appending a rule with a fresh id keeps ids distinct and leaves every other
/// id's lookup unchanged.
proof fn lemma_lookup_push<T: StoreEntry>(s: Seq<T>, e: T)
    requires
        keys_unique(s),
        !has_key(s, e.key()),
    ensures
        keys_unique(s.push(e)),
        lookup(s.push(e), e.key()) == Some(e),
        forall|k: Seq<char>| k != e.key() ==> #[trigger] lookup(s.push(e), k) == lookup(s, k),
{
    let t = s.push(e);
    assert forall|a: int, b: int| 0 <= a < b < t.len() implies #[trigger] t[a].key()
        != #[trigger] t[b].key() by {
        if b < s.len() {
            assert(s[a].key() != s[b].key());
        } else {
            assert(t[b] == e);
            assert(t[a] == s[a]);
        }
    }
    lemma_lookup_at(t, s.len() as int);
    assert forall|k: Seq<char>| k != e.key() implies #[trigger] lookup(t, k) == lookup(s, k) by {
        if has_key(s, k) {
            let a = key_idx(s, k);
            assert(t[a].key() == k);
            lemma_lookup_at(s, a);
            lemma_lookup_at(t, a);
        } else {
            if has_key(t, k) {
                let a = key_idx(t, k);
                assert(0 <= a < t.len() && t[a].key() == k);
                if a < s.len() {
                    assert(s[a].key() == k);
                    assert(false);
                } else {
                    assert(t[a] == e);
                    assert(false);
                }
            }
        }
    }
}

/// Removing the rule at `i` keeps ids distinct, makes its id absent, and
/// leaves every other id's lookup unchanged.
proof fn lemma_lookup_remove<T: StoreEntry>(s: Seq<T>, i: int)
    requires
        keys_unique(s),
        0 <= i < s.len(),
    ensures
        keys_unique(s.remove(i)),
        !has_key(s.remove(i), s[i].key()),
        forall|k: Seq<char>|
            k != s[i].key() ==> #[trigger] lookup(s.remove(i), k) == lookup(s, k),
{
    let t = s.remove(i);
    assert(forall|j: int|
        0 <= j < t.len() ==> #[trigger] t[j] == (if j < i {
            s[j]
        } else {
            s[j + 1]
        }));
    assert forall|a: int, b: int| 0 <= a < b < t.len() implies #[trigger] t[a].key()
        != #[trigger] t[b].key() by {
        let a0 = if a < i { a } else { a + 1 };
        let b0 = if b < i { b } else { b + 1 };
        assert(s[a0].key() != s[b0].key());
    }
    if has_key(t, s[i].key()) {
        let a = key_idx(t, s[i].key());
        let a0 = if a < i { a } else { a + 1 };
        assert(s[a0].key() == s[i].key());
        assert(a0 != i);
        assert(false);
    }
    assert forall|k: Seq<char>| k != s[i].key() implies #[trigger] lookup(t, k) == lookup(s, k) by {
        if has_key(s, k) {
            let a = key_idx(s, k);
            assert(0 <= a < s.len() && s[a].key() == k);
            assert(a != i);
            let a1 = if a < i { a } else { a - 1 };
            assert(t[a1].key() == k);
            lemma_lookup_at(s, a);
            lemma_lookup_at(t, a1);
        } else {
            if has_key(t, k) {
                let a = key_idx(t, k);
                let a0 = if a < i { a } else { a + 1 };
                assert(s[a0].key() == k);
                assert(false);
            }
        }
    }
}

/// The store itself: rules with pairwise distinct ids.
pub struct RuleStore<T> {
    items: Vec<T>,
}

impl<T: StoreEntry> RuleStore<T> {
    /// The rules currently held, in insertion order.
    pub closed spec fn rules(&self) -> Seq<T> {
        self.items@
    }

    pub open spec fn wf(&self) -> bool {
        keys_unique(self.rules())
    }

    pub fn new() -> (r: Self)
        ensures
            r.wf(),
            r.rules() == Seq::<T>::empty(),
    {
        RuleStore { items: Vec::new() }
    }

    pub fn len(&self) -> (n: usize)
        ensures
            n == self.rules().len(),
    {
        self.items.len()
    }

    pub fn entry_at(&self, i: usize) -> (r: &T)
        requires
            i < self.rules().len(),
        ensures
            *r == self.rules()[i as int],
    {
        &self.items[i]
    }

    /// The position of the rule with the given id.
    fn find_index(&self, id: &str) -> (r: Option<usize>)
        ensures
            match r {
                Some(i) => i < self.rules().len() && self.rules()[i as int].key() == id@,
                None => !has_key(self.rules(), id@),
            },
    {
        let n = self.items.len();
        let mut i: usize = 0;
        while i < n
            invariant
                i <= n,
                n == self.rules().len(),
                forall|j: int| 0 <= j < i ==> #[trigger] self.rules()[j].key() != id@,
            decreases n - i,
        {
            if crate::strutil::str_eq(self.items[i].key_ref().as_str(), id) {
                return Some(i);
            }
            i += 1;
        }
        None
    }

    /// Whether a rule with this id is present.
    pub fn contains_id(&self, id: &str) -> (r: bool)
        ensures
            r == has_key(self.rules(), id@),
    {
        self.find_index(id).is_some()
    }

    /// A borrow of the rule with this id.
    pub fn get<'a>(&'a self, id: &str) -> (r: Option<&'a T>)
        requires
            self.wf(),
        ensures
            match r {
                Some(t) => lookup(self.rules(), id@) == Some(*t),
                None => lookup(self.rules(), id@) == None::<T>,
            },
    {
        match self.find_index(id) {
            Some(i) => {
                proof {
                    lemma_lookup_at(self.rules(), i as int);
                }
                Some(&self.items[i])
            },
            None => None,
        }
    }

    /// A key no stored rule bears: a fresh random identifier — lengthened
    /// past every stored key in the vanishing case that the draw collides,
    /// since a key longer than every stored key is new.
    pub fn fresh_key(&self) -> (r: String)
        ensures
            !has_key(self.rules(), r@),
    {
        let mut id = crate::ids::fresh_id();
        if !self.contains_id(id.as_str()) {
            return id;
        }
        let n = self.items.len();
        let mut m: usize = 0;
        let mut i: usize = 0;
        while i < n
            invariant
                i <= n,
                n == self.rules().len(),
                forall|j: int| 0 <= j < i ==> (#[trigger] self.rules()[j]).key().len() <= m,
            decreases n - i,
        {
            let l = self.items[i].key_ref().as_str().unicode_len();
            if l > m {
                m = l;
            }
            i += 1;
        }
        proof {
            reveal_strlit("-");
            assert("-"@.len() == 1);
        }
        while id.as_str().unicode_len() <= m
            invariant
                "-"@.len() == 1,
            decreases m + 1 - id@.len(),
        {
            id.append("-");
        }
        proof {
            assert(id@.len() > m);
            assert forall|j: int| 0 <= j < self.rules().len() implies (
            #[trigger] self.rules()[j]).key() != id@ by {
                assert(self.rules()[j].key().len() <= m);
            }
            if has_key(self.rules(), id@) {
                let w = choose|w: int|
                    0 <= w < self.rules().len() && #[trigger] self.rules()[w].key() == id@;
                assert(false);
            }
        }
        id
    }

    /// Stores `entry` under its id: a rule with the same id is replaced, any
    /// other rule is untouched.
    pub fn upsert(&mut self, entry: T)
        requires
            old(self).wf(),
        ensures
            final(self).wf(),
            lookup(final(self).rules(), entry.key()) == Some(entry),
            forall|k: Seq<char>|
                k != entry.key() ==> #[trigger] lookup(final(self).rules(), k) == lookup(
                    old(self).rules(),
                    k,
                ),
            final(self).rules().len() == old(self).rules().len() + (if has_key(
                old(self).rules(),
                entry.key(),
            ) {
                0int
            } else {
                1int
            }),
    {
        let ghost prev = self.rules();
        let id = entry.key_ref().clone();
        proof {
            assert(id@ == entry.key());
        }
        match self.find_index(id.as_str()) {
            Some(i) => {
                proof {
                    assert(prev[i as int].key() == entry.key());
                    assert(has_key(prev, entry.key()));
                    lemma_lookup_update(prev, i as int, entry);
                }
                self.items.set(i, entry);
                proof {
                    assert(self.rules() =~= prev.update(i as int, entry));
                }
            },
            None => {
                proof {
                    lemma_lookup_push(prev, entry);
                }
                self.items.push(entry);
                proof {
                    assert(self.rules() =~= prev.push(entry));
                }
            },
        }
    }

    /// Removes the rule with this id; reports whether one was there.
    pub fn remove(&mut self, id: &str) -> (r: bool)
        requires
            old(self).wf(),
        ensures
            final(self).wf(),
            r == has_key(old(self).rules(), id@),
            lookup(final(self).rules(), id@) == None::<T>,
            forall|k: Seq<char>|
                k != id@ ==> #[trigger] lookup(final(self).rules(), k) == lookup(
                    old(self).rules(),
                    k,
                ),
            final(self).rules().len() == old(self).rules().len() - (if has_key(
                old(self).rules(),
                id@,
            ) {
                1int
            } else {
                0int
            }),
    {
        let ghost prev = self.rules();
        match self.find_index(id) {
            Some(i) => {
                proof {
                    lemma_lookup_remove(prev, i as int);
                }
                self.items.remove(i);
                proof {
                    assert(self.rules() =~= prev.remove(i as int));
                }
                true
            },
            None => {
                assert(lookup(self.rules(), id@) == None::<T>);
                false
            },
        }
    }

    /// Flips the enabled flag of the rule with this id; reports whether one
    /// was there.
    pub fn toggle(&mut self, id: &str) -> (r: bool)
        requires
            old(self).wf(),
        ensures
            final(self).wf(),
            r == has_key(old(self).rules(), id@),
            r ==> {
                let e = lookup(old(self).rules(), id@).unwrap();
                lookup(final(self).rules(), id@) == Some(e.with_active(!e.active()))
            },
            !r ==> final(self).rules() == old(self).rules(),
            forall|k: Seq<char>|
                k != id@ ==> #[trigger] lookup(final(self).rules(), k) == lookup(
                    old(self).rules(),
                    k,
                ),
            final(self).rules().len() == old(self).rules().len(),
    {
        let ghost prev = self.rules();
        match self.find_index(id) {
            Some(i) => {
                let b = !self.items[i].enabled_val();
                self.items[i].set_active(b);
                proof {
                    let flipped = prev[i as int].with_active(!prev[i as int].active());
                    assert(self.rules() =~= prev.update(i as int, flipped));
                    lemma_lookup_at(prev, i as int);
                    prev[i as int].with_active_props(!prev[i as int].active());
                    lemma_lookup_update(prev, i as int, flipped);
                }
                true
            },
            None => false,
        }
    }

    /// Removes every rule.
    pub fn clear(&mut self)
        ensures
            final(self).wf(),
            final(self).rules() == Seq::<T>::empty(),
    {
        self.items.clear();
        assert(self.rules() =~= Seq::<T>::empty());
    }

    /// A snapshot of all rules, sorted by priority descending; rules of equal
    /// priority keep their stored order.
    pub fn list_sorted<'a>(&'a self) -> (r: Vec<&'a T>)
        ensures
            r@.len() == self.rules().len(),
            forall|i: int, j: int| 0 <= i < j < r@.len() ==> r@[i].prio() >= r@[j].prio(),
            forall|i: int| 0 <= i < r@.len() ==> self.rules().contains(#[trigger] *r@[i]),
            forall|i: int|
                0 <= i < self.rules().len() ==> appears(r@, #[trigger] self.rules()[i]),
    {
        let n = self.items.len();
        let mut r: Vec<&'a T> = Vec::new();
        let mut i: usize = 0;
        while i < n
            invariant
                i <= n,
                n == self.rules().len(),
                r@.len() == i,
                forall|a: int, b: int| 0 <= a < b < r@.len() ==> r@[a].prio() >= r@[b].prio(),
                forall|a: int| 0 <= a < r@.len() ==> self.rules().contains(#[trigger] *r@[a]),
                forall|a: int| 0 <= a < i ==> appears(r@, #[trigger] self.rules()[a]),
            decreases n - i,
        {
            let e = &self.items[i];
            proof {
                assert(self.rules()[i as int] == *e);
            }
            let ghost before = r@;
            let p = e.prio_val();
            let mut pos: usize = 0;
            while pos < r.len() && r[pos].prio_val() >= p
                invariant
                    pos <= r@.len(),
                    r@ == before,
                    p as int == e.prio(),
                    forall|a: int| 0 <= a < pos ==> r@[a].prio() >= p as int,
                decreases r@.len() - pos,
            {
                pos += 1;
            }
            proof {
                if (pos as int) < before.len() {
                    assert(before[pos as int].prio() < p as int);
                }
            }
            r.insert(pos, e);
            proof {
                let cur = r@;
                assert(cur =~= before.insert(pos as int, e));
                assert forall|x: int| 0 <= x < cur.len() implies self.rules().contains(
                    #[trigger] *cur[x],
                ) by {
                    lemma_insert_index(before, pos as int, e, x);
                    if x == pos as int {
                        assert(self.rules()[i as int] == *e);
                    }
                }
                assert forall|a: int, b: int| 0 <= a < b < cur.len() implies cur[a].prio()
                    >= cur[b].prio() by {
                    lemma_insert_index(before, pos as int, e, a);
                    lemma_insert_index(before, pos as int, e, b);
                }
                assert forall|a: int| 0 <= a < i + 1 implies appears(
                    cur,
                    #[trigger] self.rules()[a],
                ) by {
                    if a < i {
                        assert(appears(before, self.rules()[a]));
                        let w = choose|w: int|
                            0 <= w < before.len() && *(#[trigger] before[w]) == self.rules()[a];
                        lemma_insert_index(before, pos as int, e, if w < pos as int {
                            w
                        } else {
                            w + 1
                        });
                        if w < pos as int {
                            assert(*cur[w] == self.rules()[a]);
                        } else {
                            assert(*cur[w + 1] == self.rules()[a]);
                        }
                    } else {
                        lemma_insert_index(before, pos as int, e, pos as int);
                        assert(*cur[pos as int] == self.rules()[a]);
                    }
                }
            }
            i += 1;
        }
        r
    }
}

/// Where an element is after a single-position insert.
pub proof fn lemma_insert_index<T>(s: Seq<T>, p: int, e: T, x: int)
    requires
        0 <= p <= s.len(),
        0 <= x < s.len() + 1,
    ensures
        s.insert(p, e)[x] == if x < p {
            s[x]
        } else if x == p {
            e
        } else {
            s[x - 1]
        },
{
}

} // verus!
