//! Header collections as association lists of name/value pairs. Lookup finds
//! the first pair with the given name; setting a name removes every earlier
//! pair with it, so a set value always wins.
use vstd::prelude::*;

verus! {

/// The value of the first pair named `name`, if any.
pub open spec fn hlookup(h: Seq<(String, String)>, name: Seq<char>) -> Option<Seq<char>>
    decreases h.len(),
{
    if h.len() == 0 {
        None
    } else if h[0].0@ == name {
        Some(h[0].1@)
    } else {
        hlookup(h.drop_first(), name)
    }
}

pub open spec fn hcontains(h: Seq<(String, String)>, name: Seq<char>) -> bool {
    hlookup(h, name) is Some
}

/// `h` without any pair named `name`.
pub open spec fn hremove(h: Seq<(String, String)>, name: Seq<char>) -> Seq<(String, String)>
    decreases h.len(),
{
    if h.len() == 0 {
        h
    } else if h[0].0@ == name {
        hremove(h.drop_first(), name)
    } else {
        seq![h[0]] + hremove(h.drop_first(), name)
    }
}

/// After removal the name is gone and every other name reads as before.
pub proof fn lemma_hremove(h: Seq<(String, String)>, name: Seq<char>)
    ensures
        hlookup(hremove(h, name), name) == None::<Seq<char>>,
        forall|x: Seq<char>|
            x != name ==> #[trigger] hlookup(hremove(h, name), x) == hlookup(h, x),
    decreases h.len(),
{
    if h.len() == 0 {
    } else {
        lemma_hremove(h.drop_first(), name);
        if h[0].0@ == name {
        } else {
            let t = seq![h[0]] + hremove(h.drop_first(), name);
            assert(t[0] == h[0]);
            assert(t.drop_first() =~= hremove(h.drop_first(), name));
        }
    }
}

/// Looking a name up after a push: an earlier pair still wins; otherwise the
/// pushed pair answers for its own name.
pub proof fn lemma_hlookup_push(h: Seq<(String, String)>, p: (String, String), x: Seq<char>)
    ensures
        hlookup(h.push(p), x) == if hlookup(h, x) is Some {
            hlookup(h, x)
        } else if p.0@ == x {
            Some(p.1@)
        } else {
            None
        },
    decreases h.len(),
{
    let t = h.push(p);
    assert(t.len() == h.len() + 1);
    if h.len() == 0 {
        assert(t[0] == p);
        assert(t.drop_first() =~= Seq::<(String, String)>::empty());
        if p.0@ == x {
            assert(hlookup(t, x) == Some(p.1@));
        } else {
            assert(hlookup(t, x) == hlookup(t.drop_first(), x));
            assert(hlookup(t, x) == None::<Seq<char>>);
        }
    } else {
        assert(t[0] == h[0]);
        assert(t.drop_first() =~= h.drop_first().push(p));
        lemma_hlookup_push(h.drop_first(), p, x);
        if h[0].0@ == x {
            assert(hlookup(t, x) == Some(h[0].1@));
            assert(hlookup(h, x) == Some(h[0].1@));
        } else {
            assert(hlookup(t, x) == hlookup(h.drop_first().push(p), x));
            assert(hlookup(h, x) == hlookup(h.drop_first(), x));
        }
    }
}

/// Finds the value of `name`.
pub fn header_get<'a>(h: &'a Vec<(String, String)>, name: &str) -> (r: Option<&'a String>)
    ensures
        match r {
            Some(v) => hlookup(h@, name@) == Some(v@),
            None => hlookup(h@, name@) == None::<Seq<char>>,
        },
{
    let n = h.len();
    let mut i: usize = 0;
    assert(h@.skip(0) =~= h@);
    while i < n
        invariant
            i <= n,
            n == h@.len(),
            hlookup(h@, name@) == hlookup(h@.skip(i as int), name@),
        decreases n - i,
    {
        proof {
            assert(h@.skip(i as int)[0] == h@[i as int]);
            assert(h@.skip(i as int).drop_first() =~= h@.skip(i + 1));
        }
        if crate::strutil::str_eq(h[i].0.as_str(), name) {
            return Some(&h[i].1);
        }
        i += 1;
    }
    proof {
        assert(h@.skip(n as int) =~= Seq::<(String, String)>::empty());
    }
    None
}

/// Whether `name` is present.
pub fn header_contains(h: &Vec<(String, String)>, name: &str) -> (r: bool)
    ensures
        r == hcontains(h@, name@),
{
    header_get(h, name).is_some()
}

/// Removes every pair named `name`.
pub fn header_remove(h: &mut Vec<(String, String)>, name: &str)
    ensures
        final(h)@ == hremove(old(h)@, name@),
        hlookup(final(h)@, name@) == None::<Seq<char>>,
        forall|x: Seq<char>|
            x != name@ ==> #[trigger] hlookup(final(h)@, x) == hlookup(old(h)@, x),
{
    let n = h.len();
    let mut out: Vec<(String, String)> = Vec::new();
    let mut i: usize = 0;
    assert(h@.skip(0) =~= h@);
    while i < n
        invariant
            i <= n,
            n == h@.len(),
            hremove(h@, name@) == out@ + hremove(h@.skip(i as int), name@),
        decreases n - i,
    {
        proof {
            assert(h@.skip(i as int)[0] == h@[i as int]);
            assert(h@.skip(i as int).drop_first() =~= h@.skip(i + 1));
        }
        if !crate::strutil::str_eq(h[i].0.as_str(), name) {
            let k = h[i].0.clone();
            let v = h[i].1.clone();
            proof {
                assert(seq![h@[i as int]] + hremove(h@.skip(i + 1), name@) =~= hremove(
                    h@.skip(i as int),
                    name@,
                ));
            }
            out.push((k, v));
            proof {
                assert((k, v) == h@[i as int]);
                assert(out@ + hremove(h@.skip(i + 1), name@) =~= hremove(h@, name@));
            }
        }
        i += 1;
    }
    proof {
        assert(h@.skip(n as int) =~= Seq::<(String, String)>::empty());
        assert(out@ =~= hremove(h@, name@));
        lemma_hremove(h@, name@);
    }
    *h = out;
}

/// Sets `name` to `value`, dropping any earlier pair with that name.
pub fn header_set(h: &mut Vec<(String, String)>, name: &str, value: String)
    ensures
        hlookup(final(h)@, name@) == Some(value@),
        forall|x: Seq<char>|
            x != name@ ==> #[trigger] hlookup(final(h)@, x) == hlookup(old(h)@, x),
{
    header_remove(h, name);
    let ghost mid = h@;
    let pair = (name.to_owned(), value);
    h.push(pair);
    proof {
        assert(pair.0@ == name@);
        lemma_hremove(old(h)@, name@);
        assert forall|x: Seq<char>| true implies #[trigger] hlookup(h@, x) == (
        if hlookup(mid, x) is Some {
            hlookup(mid, x)
        } else if x == name@ {
            Some(pair.1@)
        } else {
            None
        }) by {
            lemma_hlookup_push(mid, pair, x);
        }
    }
}

/// A copy of a header list.
pub fn clone_headers(h: &Vec<(String, String)>) -> (r: Vec<(String, String)>)
    ensures
        r@ == h@,
{
    let n = h.len();
    let mut r: Vec<(String, String)> = Vec::new();
    let mut i: usize = 0;
    while i < n
        invariant
            i <= n,
            n == h@.len(),
            r@ == h@.subrange(0, i as int),
        decreases n - i,
    {
        r.push((h[i].0.clone(), h[i].1.clone()));
        proof {
            assert((h@[i as int].0, h@[i as int].1) == h@[i as int]);
            assert(r@ =~= h@.subrange(0, i + 1));
        }
        i += 1;
    }
    proof {
        assert(h@.subrange(0, n as int) =~= h@);
    }
    r
}

} // verus!
