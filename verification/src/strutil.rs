//! String primitives the rule engines are built on: substring relations,
//! equality, decimal rendering and parsing, trimming and splitting.
//!
//! Executable code works on `Vec<char>` so that every step is index-based;
//! the specifications are stated over `Seq<char>`, the view of both `&str`
//! and `String`.
use vstd::prelude::*;

verus! {

/// `p` occurs in `s` starting at index `i`.
pub open spec fn matches_at(s: Seq<char>, p: Seq<char>, i: int) -> bool {
    0 <= i && i + p.len() <= s.len() && s.subrange(i, i + p.len()) == p
}

/// `p` occurs somewhere in `s`.
pub open spec fn has_substring(s: Seq<char>, p: Seq<char>) -> bool {
    exists|i: int| matches_at(s, p, i)
}

/// `s` begins with `p`.
pub open spec fn starts_with(s: Seq<char>, p: Seq<char>) -> bool {
    p.len() <= s.len() && s.subrange(0, p.len() as int) == p
}

/// `s` ends with `p`.
pub open spec fn ends_with(s: Seq<char>, p: Seq<char>) -> bool {
    p.len() <= s.len() && s.subrange(s.len() - p.len(), s.len() as int) == p
}

/// The characters of `s`, as a vector.
pub fn chars_vec(s: &str) -> (r: Vec<char>)
    ensures
        r@ == s@,
{
    let len = s.unicode_len();
    let mut r: Vec<char> = Vec::new();
    let mut i: usize = 0;
    while i < len
        invariant
            i <= len,
            len == s@.len(),
            r@ == s@.subrange(0, i as int),
        decreases len - i,
    {
        r.push(s.get_char(i));
        assert(r@ =~= s@.subrange(0, i + 1 as int));
        i += 1;
    }
    assert(s@.subrange(0, len as int) =~= s@);
    r
}

/// Relies on `String::from_utf8`: it succeeds exactly on valid UTF-8 and
/// decodes the bytes to the characters they encode.
#[verifier::external_body]
pub fn utf8_to_string(b: &Vec<u8>) -> (r: Option<String>)
    ensures
        r is Some <==> vstd::utf8::valid_utf8(b@),
        r is Some ==> r.unwrap()@ == vstd::utf8::decode_utf8(b@),
{
    match String::from_utf8(b.clone()) {
        Ok(s) => Some(s),
        Err(_) => None,
    }
}

/// A copy of a byte vector.
pub fn bytes_clone(s: &Vec<u8>) -> (r: Vec<u8>)
    ensures
        r@ == s@,
{
    let n = s.len();
    let mut r: Vec<u8> = Vec::new();
    let mut i: usize = 0;
    while i < n
        invariant
            i <= n,
            n == s@.len(),
            r@ == s@.subrange(0, i as int),
        decreases n - i,
    {
        r.push(s[i]);
        assert(r@ =~= s@.subrange(0, i + 1));
        i += 1;
    }
    assert(s@.subrange(0, n as int) =~= s@);
    r
}

/// Relies on `String`'s `FromIterator` over `char`: the collected string
/// consists of exactly the given characters in order.
#[verifier::external_body]
pub fn chars_to_string(v: &Vec<char>) -> (r: String)
    ensures
        r@ == v@,
{
    v.iter().collect()
}

/// Character-for-character equality of two vectors.
pub fn chars_eq(a: &Vec<char>, b: &Vec<char>) -> (r: bool)
    ensures
        r == (a@ == b@),
{
    if a.len() != b.len() {
        assert(a@ != b@);
        return false;
    }
    let n = a.len();
    let mut i: usize = 0;
    while i < n
        invariant
            i <= n,
            n == a@.len() == b@.len(),
            forall|j: int| 0 <= j < i ==> a@[j] == b@[j],
        decreases n - i,
    {
        if a[i] != b[i] {
            return false;
        }
        i += 1;
    }
    assert(a@ =~= b@);
    true
}

/// Equality of two string slices, by their characters.
pub fn str_eq(a: &str, b: &str) -> (r: bool)
    ensures
        r == (a@ == b@),
{
    let av = chars_vec(a);
    let bv = chars_vec(b);
    chars_eq(&av, &bv)
}

/// Whether `p` occurs in `s` starting at position `i`.
fn check_at(s: &Vec<char>, p: &Vec<char>, i: usize) -> (r: bool)
    requires
        i + p@.len() <= s@.len(),
    ensures
        r == matches_at(s@, p@, i as int),
{
    let m = p.len();
    let n = s.len();
    let mut j: usize = 0;
    while j < m
        invariant
            j <= m,
            m == p@.len(),
            n == s@.len(),
            i + m <= n,
            forall|k: int| 0 <= k < j ==> s@[i + k] == p@[k],
        decreases m - j,
    {
        if s[i + j] != p[j] {
            assert(s@.subrange(i as int, i + m) != p@) by {
                assert(s@.subrange(i as int, i + m)[j as int] == s@[i + j]);
            }
            return false;
        }
        j += 1;
    }
    assert(s@.subrange(i as int, i + m) =~= p@);
    true
}

/// Whether `p` occurs anywhere in `s`.
pub fn chars_contains(s: &Vec<char>, p: &Vec<char>) -> (r: bool)
    ensures
        r == has_substring(s@, p@),
{
    let n = s.len();
    let m = p.len();
    if m > n {
        assert(!has_substring(s@, p@));
        return false;
    }
    if m == 0 {
        assert(matches_at(s@, p@, 0)) by {
            assert(s@.subrange(0, 0) =~= p@);
        }
        return true;
    }
    let last = n - m;
    let mut i: usize = 0;
    while i <= last
        invariant
            i <= last + 1,
            last == n - m,
            n == s@.len(),
            m == p@.len(),
            1 <= m <= n,
            forall|k: int| 0 <= k < i ==> !matches_at(s@, p@, k),
        decreases last - i + 1,
    {
        if check_at(s, p, i) {
            return true;
        }
        i += 1;
    }
    assert(forall|k: int| matches_at(s@, p@, k) ==> 0 <= k <= last);
    false
}

/// Whether `s` begins with `p`.
pub fn chars_starts_with(s: &Vec<char>, p: &Vec<char>) -> (r: bool)
    ensures
        r == starts_with(s@, p@),
{
    if p.len() > s.len() {
        return false;
    }
    check_at(s, p, 0)
}

/// Whether `s` ends with `p`.
pub fn chars_ends_with(s: &Vec<char>, p: &Vec<char>) -> (r: bool)
    ensures
        r == ends_with(s@, p@),
{
    if p.len() > s.len() {
        return false;
    }
    check_at(s, p, s.len() - p.len())
}

pub const DEC_DIGITS: [char; 10] = ['0', '1', '2', '3', '4', '5', '6', '7', '8', '9'];

/// The decimal representation of `n`, most significant digit first.
pub open spec fn dec_rep(n: nat) -> Seq<char>
    decreases n,
{
    if n < 10 {
        seq![DEC_DIGITS@[n as int]]
    } else {
        dec_rep(n / 10).push(DEC_DIGITS@[(n % 10) as int])
    }
}

fn push_dec(n: u64, out: &mut Vec<char>)
    ensures
        final(out)@ == old(out)@ + dec_rep(n as nat),
    decreases n,
{
    if n < 10 {
        out.push(DEC_DIGITS[n as usize]);
        assert(out@ =~= old(out)@ + dec_rep(n as nat));
    } else {
        push_dec(n / 10, out);
        out.push(DEC_DIGITS[(n % 10) as usize]);
        assert(out@ =~= old(out)@ + dec_rep(n as nat));
    }
}

/// Renders `n` in decimal.
pub fn u64_to_string(n: u64) -> (r: String)
    ensures
        r@ == dec_rep(n as nat),
{
    let mut digits: Vec<char> = Vec::new();
    push_dec(n, &mut digits);
    assert(digits@ =~= dec_rep(n as nat));
    chars_to_string(&digits)
}

pub open spec fn is_dec_digit(c: char) -> bool {
    '0' <= c && c <= '9'
}

pub open spec fn digit_val(c: char) -> nat {
    (c as nat - '0' as nat) as nat
}

/// The value of a digit string, most significant digit first.
pub open spec fn dec_val(s: Seq<char>) -> nat
    decreases s.len(),
{
    if s.len() == 0 {
        0
    } else {
        dec_val(s.drop_last()) * 10 + digit_val(s.last())
    }
}

pub open spec fn all_dec_digits(s: Seq<char>) -> bool {
    forall|i: int| 0 <= i < s.len() ==> is_dec_digit(#[trigger] s[i])
}

/// Parses an unsigned decimal number, as `str::parse` for unsigned integers
/// does: an optional leading `+`, then at least one digit, and the value must
/// fit the target. Returns the value capped check against `max`.
pub fn parse_uint(s: &Vec<char>, max: u64) -> (r: Option<u64>)
    ensures
        r is Some <==> uint_parses(s@, max as nat),
        r is Some ==> r.unwrap() as nat == dec_val(digits_part(s@)),
{
    let start: usize = if s.len() > 0 && s[0] == '+' {
        1
    } else {
        0
    };
    let n = s.len();
    if start >= n {
        assert(!uint_parses(s@, max as nat));
        return None;
    }
    let mut acc: u64 = 0;
    let mut i: usize = start;
    while i < n
        invariant
            start <= i <= n,
            n == s@.len(),
            start == if s@.len() > 0 && s@[0] == '+' { 1int } else { 0int },
            acc <= max,
            max <= u64::MAX,
            all_dec_digits(s@.subrange(start as int, i as int)),
            acc as nat == dec_val(s@.subrange(start as int, i as int)),
        decreases n - i,
    {
        let c = s[i];
        if !(c >= '0' && c <= '9') {
            assert(!all_dec_digits(digits_part(s@))) by {
                assert(digits_part(s@)[i - start] == c);
            }
            return None;
        }
        let d: u64 = (c as u32 - '0' as u32) as u64;
        let wide: u128 = acc as u128 * 10 + d as u128;
        proof {
            assert(s@.subrange(start as int, i + 1).drop_last() =~= s@.subrange(
                start as int,
                i as int,
            ));
            assert(s@.subrange(start as int, i + 1).last() == c);
            assert(dec_val(s@.subrange(start as int, i + 1)) == acc as nat * 10 + digit_val(c));
        }
        if wide > max as u128 {
            proof {
                if all_dec_digits(digits_part(s@)) {
                    assert(s@.subrange(start as int, i + 1) =~= digits_part(s@).subrange(
                        0,
                        i + 1 - start,
                    ));
                    lemma_dec_val_monotone(
                        digits_part(s@).subrange(0, i + 1 - start),
                        digits_part(s@),
                    );
                }
            }
            return None;
        }
        acc = wide as u64;
        i += 1;
    }
    assert(s@.subrange(start as int, n as int) =~= digits_part(s@));
    Some(acc)
}

/// The digit portion of a number spelling: everything after a leading `+`.
pub open spec fn digits_part(s: Seq<char>) -> Seq<char> {
    if s.len() > 0 && s[0] == '+' {
        s.subrange(1, s.len() as int)
    } else {
        s
    }
}

/// Whether `s` spells an unsigned number with value at most `max`.
pub open spec fn uint_parses(s: Seq<char>, max: nat) -> bool {
    &&& digits_part(s).len() > 0
    &&& all_dec_digits(digits_part(s))
    &&& dec_val(digits_part(s)) <= max
}

/// A prefix of a digit string never has a larger value than the whole.
proof fn lemma_dec_val_monotone(p: Seq<char>, s: Seq<char>)
    requires
        p.len() <= s.len(),
        p == s.subrange(0, p.len() as int),
        all_dec_digits(s),
    ensures
        dec_val(p) <= dec_val(s),
    decreases s.len(),
{
    if p.len() < s.len() {
        assert(p == s.drop_last().subrange(0, p.len() as int)) by {
            assert(s.drop_last().subrange(0, p.len() as int) =~= s.subrange(
                0,
                p.len() as int,
            ));
        }
        lemma_dec_val_monotone(p, s.drop_last());
        assert(dec_val(s.drop_last()) * 10 + digit_val(s.last()) >= dec_val(s.drop_last()))
            by (nonlinear_arith)
            requires
                dec_val(s.drop_last()) >= 0,
                digit_val(s.last()) >= 0,
        ;
    } else {
        assert(p =~= s);
    }
}

pub open spec fn is_space(c: char) -> bool {
    c == ' ' || c == '\t' || c == '\r' || c == '\n'
}

/// `s` with leading and trailing ASCII whitespace removed.
pub open spec fn trimmed(s: Seq<char>) -> Seq<char>
    decreases s.len(),
{
    if s.len() > 0 && is_space(s.first()) {
        trimmed(s.drop_first())
    } else if s.len() > 0 && is_space(s.last()) {
        trimmed(s.drop_last())
    } else {
        s
    }
}

/// Removes leading and trailing ASCII whitespace.
pub fn chars_trim(s: &Vec<char>) -> (r: Vec<char>)
    ensures
        r@ == trimmed(s@),
{
    let mut lo: usize = 0;
    let mut hi: usize = s.len();
    assert(s@.subrange(0, s@.len() as int) =~= s@);
    while lo < hi && (s[lo] == ' ' || s[lo] == '\t' || s[lo] == '\r' || s[lo] == '\n')
        invariant
            0 <= lo <= hi <= s@.len(),
            trimmed(s@) == trimmed(s@.subrange(lo as int, hi as int)),
            hi == s@.len(),
        decreases hi - lo,
    {
        proof {
            assert(s@.subrange(lo as int, hi as int).drop_first() =~= s@.subrange(
                lo + 1,
                hi as int,
            ));
        }
        lo += 1;
    }
    while lo < hi && (s[hi - 1] == ' ' || s[hi - 1] == '\t' || s[hi - 1] == '\r' || s[hi - 1]
        == '\n')
        invariant
            0 <= lo <= hi <= s@.len(),
            trimmed(s@) == trimmed(s@.subrange(lo as int, hi as int)),
            lo < hi ==> !is_space(s@[lo as int]),
        decreases hi - lo,
    {
        proof {
            assert(s@.subrange(lo as int, hi as int).drop_last() =~= s@.subrange(
                lo as int,
                hi - 1,
            ));
            assert(s@.subrange(lo as int, hi as int).first() == s@[lo as int]);
        }
        hi -= 1;
    }
    let mut r: Vec<char> = Vec::new();
    let mut i: usize = lo;
    while i < hi
        invariant
            lo <= i <= hi <= s@.len(),
            r@ == s@.subrange(lo as int, i as int),
        decreases hi - i,
    {
        r.push(s[i]);
        assert(r@ =~= s@.subrange(lo as int, i + 1));
        i += 1;
    }
    proof {
        let mid = s@.subrange(lo as int, hi as int);
        if lo < hi {
            assert(!is_space(mid.first()));
            assert(!is_space(mid.last()));
        }
        assert(trimmed(mid) == mid);
    }
    r
}

/// The part of `s` before the first occurrence of `sep`, or all of `s`.
pub open spec fn before_char(s: Seq<char>, sep: char) -> Seq<char> {
    if exists|i: int| 0 <= i < s.len() && s[i] == sep {
        s.subrange(0, first_pos(s, sep))
    } else {
        s
    }
}

/// The least index at which `c` occurs in `s` (meaningful only when it occurs).
pub open spec fn first_pos(s: Seq<char>, c: char) -> int {
    choose|i: int|
        0 <= i < s.len() && s[i] == c && (forall|j: int| 0 <= j < i ==> s[j] != c)
}

/// Takes the characters before the first `sep`.
pub fn chars_before(s: &Vec<char>, sep: char) -> (r: Vec<char>)
    ensures
        r@ == before_char(s@, sep),
{
    let n = s.len();
    let mut r: Vec<char> = Vec::new();
    let mut i: usize = 0;
    while i < n
        invariant
            i <= n,
            n == s@.len(),
            r@ == s@.subrange(0, i as int),
            forall|j: int| 0 <= j < i ==> s@[j] != sep,
        decreases n - i,
    {
        if s[i] == sep {
            proof {
                let w = first_pos(s@, sep);
                assert(0 <= w < s@.len() && s@[w] == sep && (forall|j: int|
                    0 <= j < w ==> s@[j] != sep));
                assert(w == i as int);
            }
            return r;
        }
        r.push(s[i]);
        assert(r@ =~= s@.subrange(0, i + 1));
        i += 1;
    }
    assert(s@.subrange(0, n as int) =~= s@);
    r
}


/// `s` with every non-overlapping occurrence of `pat` replaced by `rep`,
/// scanning left to right. An empty pattern replaces nothing.
pub open spec fn replace_all(s: Seq<char>, pat: Seq<char>, rep: Seq<char>) -> Seq<char>
    decreases s.len(),
{
    if pat.len() == 0 || s.len() < pat.len() {
        s
    } else if s.subrange(0, pat.len() as int) == pat {
        rep + replace_all(s.skip(pat.len() as int), pat, rep)
    } else {
        seq![s[0]] + replace_all(s.drop_first(), pat, rep)
    }
}

/// A copy of a character vector.
pub fn chars_clone(s: &Vec<char>) -> (r: Vec<char>)
    ensures
        r@ == s@,
{
    let n = s.len();
    let mut r: Vec<char> = Vec::new();
    let mut i: usize = 0;
    while i < n
        invariant
            i <= n,
            n == s@.len(),
            r@ == s@.subrange(0, i as int),
        decreases n - i,
    {
        r.push(s[i]);
        assert(r@ =~= s@.subrange(0, i + 1));
        i += 1;
    }
    assert(s@.subrange(0, n as int) =~= s@);
    r
}

/// Replaces every non-overlapping occurrence of `pat` in `s` by `rep`.
pub fn chars_replace_all(s: &Vec<char>, pat: &Vec<char>, rep: &Vec<char>) -> (r: Vec<char>)
    ensures
        r@ == replace_all(s@, pat@, rep@),
{
    let n = s.len();
    let m = pat.len();
    if m == 0 || n < m {
        return chars_clone(s);
    }
    let mut out: Vec<char> = Vec::new();
    let mut i: usize = 0;
    proof {
        assert(s@.skip(0) =~= s@);
    }
    while i < n
        invariant
            i <= n,
            n == s@.len(),
            m == pat@.len(),
            1 <= m,
            replace_all(s@, pat@, rep@) == out@ + replace_all(s@.skip(i as int), pat@, rep@),
        decreases n - i,
    {
        if n - i >= m && check_at(s, pat, i) {
            proof {
                let tail = s@.skip(i as int);
                assert(tail.subrange(0, m as int) =~= s@.subrange(i as int, i + m));
                assert(tail.subrange(0, m as int) == pat@);
                assert(tail.skip(m as int) =~= s@.skip(i + m));
                assert(replace_all(tail, pat@, rep@) == rep@ + replace_all(
                    s@.skip(i + m),
                    pat@,
                    rep@,
                ));
            }
            let k = rep.len();
            let mut j: usize = 0;
            let ghost mid = out@;
            while j < k
                invariant
                    j <= k,
                    k == rep@.len(),
                    out@ == mid + rep@.subrange(0, j as int),
                decreases k - j,
            {
                out.push(rep[j]);
                proof {
                    assert(out@ =~= mid + rep@.subrange(0, j + 1));
                }
                j += 1;
            }
            proof {
                assert(rep@.subrange(0, k as int) =~= rep@);
                assert(out@ =~= mid + rep@);
                assert(out@ + replace_all(s@.skip(i + m), pat@, rep@) =~= replace_all(
                    s@,
                    pat@,
                    rep@,
                ));
            }
            i += m;
        } else {
            proof {
                let tail = s@.skip(i as int);
                assert(tail[0] == s@[i as int]);
                assert(tail.drop_first() =~= s@.skip(i + 1));
                if n - i >= m {
                    assert(tail.subrange(0, m as int) =~= s@.subrange(i as int, i + m));
                    assert(tail.subrange(0, m as int) != pat@);
                    assert(replace_all(tail, pat@, rep@) == seq![tail[0]] + replace_all(
                        s@.skip(i + 1),
                        pat@,
                        rep@,
                    ));
                } else {
                    assert(tail.len() < m);
                    assert(replace_all(tail, pat@, rep@) == tail);
                    assert(s@.skip(i + 1).len() < m);
                    assert(replace_all(s@.skip(i + 1), pat@, rep@) == s@.skip(i + 1));
                    assert(seq![tail[0]] + s@.skip(i + 1) =~= tail);
                }
            }
            out.push(s[i]);
            proof {
                assert(out@ + replace_all(s@.skip(i + 1), pat@, rep@) =~= replace_all(
                    s@,
                    pat@,
                    rep@,
                ));
            }
            i += 1;
        }
    }
    proof {
        assert(s@.skip(n as int) =~= Seq::<char>::empty());
        assert(replace_all(s@.skip(n as int), pat@, rep@) =~= Seq::<char>::empty());
        assert(out@ =~= replace_all(s@, pat@, rep@));
    }
    out
}

/// Splits `s` at every occurrence of `sep`. The result always has one more
/// piece than there are separators; an empty `s` gives one empty piece.
pub open spec fn split_chars(s: Seq<char>, sep: char) -> Seq<Seq<char>>
    decreases s.len(),
{
    if s.len() == 0 {
        seq![Seq::<char>::empty()]
    } else if s[0] == sep {
        seq![Seq::<char>::empty()] + split_chars(s.drop_first(), sep)
    } else {
        let rest = split_chars(s.drop_first(), sep);
        seq![seq![s[0]] + rest[0]] + rest.drop_first()
    }
}

/// `split_chars` never yields an empty list.
pub proof fn lemma_split_nonempty(s: Seq<char>, sep: char)
    ensures
        split_chars(s, sep).len() >= 1,
    decreases s.len(),
{
    if s.len() == 0 {
    } else if s[0] == sep {
        lemma_split_nonempty(s.drop_first(), sep);
    } else {
        lemma_split_nonempty(s.drop_first(), sep);
    }
}

/// Splits `s` at every `sep`, as `split_chars` describes, pieces as strings.
pub fn chars_split(s: &Vec<char>, sep: char) -> (r: Vec<String>)
    ensures
        r@.len() == split_chars(s@, sep).len(),
        forall|i: int|
            0 <= i < r@.len() ==> (#[trigger] r@[i])@ == split_chars(s@, sep)[i],
{
    let n = s.len();
    let mut pieces: Vec<String> = Vec::new();
    let mut cur: Vec<char> = Vec::new();
    let mut i: usize = 0;
    proof {
        assert(s@.skip(0) =~= s@);
    }
    while i < n
        invariant
            i <= n,
            n == s@.len(),
            ({
                let full = split_chars(s@, sep);
                let rest = split_chars(s@.skip(i as int), sep);
                &&& full.len() == pieces@.len() + rest.len()
                &&& forall|q: int|
                    0 <= q < pieces@.len() ==> (#[trigger] pieces@[q])@ == full[q]
                &&& full[pieces@.len() as int] == cur@ + rest[0]
                &&& forall|q: int|
                    0 < q < rest.len() ==> full[pieces@.len() + q] == #[trigger] rest[q]
            }),
        decreases n - i,
    {
        proof {
            let tail = s@.skip(i as int);
            assert(tail[0] == s@[i as int]);
            assert(tail.drop_first() =~= s@.skip(i + 1));
            lemma_split_nonempty(s@.skip(i + 1), sep);
        }
        if s[i] == sep {
            let done = chars_to_string(&cur);
            proof {
                let tail = s@.skip(i as int);
                assert(split_chars(tail, sep) == seq![Seq::<char>::empty()] + split_chars(
                    s@.skip(i + 1),
                    sep,
                ));
                assert(split_chars(tail, sep)[0] =~= Seq::<char>::empty());
                assert(cur@ + Seq::<char>::empty() =~= cur@);
            }
            pieces.push(done);
            cur = Vec::new();
            proof {
                let full = split_chars(s@, sep);
                let rest0 = split_chars(s@.skip(i as int), sep);
                let rest1 = split_chars(s@.skip(i + 1), sep);
                assert(rest0.drop_first() =~= rest1);
                assert forall|q: int| 0 < q < rest1.len() implies full[pieces@.len() + q]
                    == #[trigger] rest1[q] by {
                    assert(rest0[q + 1] == rest1[q]);
                }
                assert(full[pieces@.len() as int] == rest1[0]);
                assert(cur@ + rest1[0] =~= rest1[0]);
            }
        } else {
            let c = s[i];
            proof {
                let tail = s@.skip(i as int);
                let rest1 = split_chars(s@.skip(i + 1), sep);
                assert(split_chars(tail, sep) == seq![seq![tail[0]] + rest1[0]]
                    + rest1.drop_first());
            }
            cur.push(c);
            proof {
                let full = split_chars(s@, sep);
                let rest0 = split_chars(s@.skip(i as int), sep);
                let rest1 = split_chars(s@.skip(i + 1), sep);
                assert(rest0[0] == seq![s@[i as int]] + rest1[0]);
                assert(cur@ + rest1[0] =~= full[pieces@.len() as int]);
                assert forall|q: int| 0 < q < rest1.len() implies full[pieces@.len() + q]
                    == #[trigger] rest1[q] by {
                    assert(rest0.drop_first()[q - 1] == rest1[q]);
                    assert(rest0[q] == rest1[q]);
                }
            }
        }
        i += 1;
    }
    let done = chars_to_string(&cur);
    proof {
        assert(s@.skip(n as int) =~= Seq::<char>::empty());
        let rest = split_chars(s@.skip(n as int), sep);
        assert(rest.len() == 1);
        assert(rest[0] =~= Seq::<char>::empty());
        assert(cur@ + rest[0] =~= cur@);
    }
    pieces.push(done);
    pieces
}

} // verus!
