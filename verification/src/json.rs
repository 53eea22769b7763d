//! A JSON model of the library's own, with a parser, a serializer, and the
//! dotted-path update the response modifier performs. Numbers keep their
//! source spelling, so a document that is parsed and serialized again keeps
//! its numbers letter for letter.
use vstd::prelude::*;

use crate::strutil::chars_to_string;

verus! {

/// A JSON value. Object members keep their textual order; a duplicated key
/// keeps both members, and lookups and the dotted-path update see the first.
pub enum JsonValue {
    Null,
    Bool(bool),
    Number(String),
    Text(String),
    Array(Vec<JsonValue>),
    Object(Vec<(String, JsonValue)>),
}

/// Values with the same structure and contents. (Two equal values are the
/// same JSON; distinct copies of a value compare equal here.)
pub open spec fn same_json(a: JsonValue, b: JsonValue) -> bool
    decreases a,
{
    match (a, b) {
        (JsonValue::Null, JsonValue::Null) => true,
        (JsonValue::Bool(x), JsonValue::Bool(y)) => x == y,
        (JsonValue::Number(x), JsonValue::Number(y)) => x == y,
        (JsonValue::Text(x), JsonValue::Text(y)) => x == y,
        (JsonValue::Array(x), JsonValue::Array(y)) => same_json_items(x@, y@),
        (JsonValue::Object(x), JsonValue::Object(y)) => same_json_fields(x@, y@),
        _ => false,
    }
}

pub open spec fn same_json_items(x: Seq<JsonValue>, y: Seq<JsonValue>) -> bool
    decreases x,
{
    if x.len() != y.len() {
        false
    } else if x.len() == 0 {
        true
    } else {
        same_json(x[0], y[0]) && same_json_items(x.drop_first(), y.drop_first())
    }
}

pub open spec fn same_json_fields(
    x: Seq<(String, JsonValue)>,
    y: Seq<(String, JsonValue)>,
) -> bool
    decreases x,
{
    if x.len() != y.len() {
        false
    } else if x.len() == 0 {
        true
    } else {
        x[0].0 == y[0].0 && same_json(x[0].1, y[0].1) && same_json_fields(
            x.drop_first(),
            y.drop_first(),
        )
    }
}

/// A value is the same JSON as itself.
pub proof fn lemma_same_json_refl(v: JsonValue)
    ensures
        same_json(v, v),
    decreases v,
{
    match v {
        JsonValue::Array(items) => {
            lemma_same_json_items_refl(items@);
        },
        JsonValue::Object(fields) => {
            lemma_same_json_fields_refl(fields@);
        },
        _ => {},
    }
}

proof fn lemma_same_json_items_refl(x: Seq<JsonValue>)
    ensures
        same_json_items(x, x),
    decreases x,
{
    if x.len() > 0 {
        lemma_same_json_refl(x[0]);
        lemma_same_json_items_refl(x.drop_first());
    }
}

proof fn lemma_same_json_fields_refl(x: Seq<(String, JsonValue)>)
    ensures
        same_json_fields(x, x),
    decreases x,
{
    if x.len() > 0 {
        lemma_same_json_refl(x[0].1);
        lemma_same_json_fields_refl(x.drop_first());
    }
}

/// Whether the member list holds `k`.
pub open spec fn has_field(fs: Seq<(String, JsonValue)>, k: Seq<char>) -> bool
    decreases fs.len(),
{
    if fs.len() == 0 {
        false
    } else if fs[0].0@ == k {
        true
    } else {
        has_field(fs.drop_first(), k)
    }
}

/// What setting `path` to `val` in `v` yields: `r` is the updated value.
///
/// A one-segment path sets that key on an object (replacing in place, or
/// appending when absent). A longer path walks into an existing member;
/// a missing member, or a non-object on the way, leaves the value as it is.
pub open spec fn json_set_rel(
    v: JsonValue,
    path: Seq<String>,
    val: JsonValue,
    r: JsonValue,
) -> bool
    decreases path.len(), 1int, 0int,
{
    if path.len() == 0 {
        r == v
    } else {
        match v {
            JsonValue::Object(fields) => match r {
                JsonValue::Object(rfields) => fields_set_rel(fields@, path, val, rfields@),
                _ => false,
            },
            _ => r == v,
        }
    }
}

/// The member-list side of `json_set_rel`, for a non-empty path.
pub open spec fn fields_set_rel(
    fs: Seq<(String, JsonValue)>,
    path: Seq<String>,
    val: JsonValue,
    rs: Seq<(String, JsonValue)>,
) -> bool
    decreases path.len(), 0int, fs.len(),
{
    if path.len() == 0 {
        rs == fs
    } else if fs.len() == 0 {
        if path.len() == 1 {
            rs == Seq::<(String, JsonValue)>::empty().push((path[0], val))
        } else {
            rs == fs
        }
    } else if fs[0].0@ == path[0]@ {
        if path.len() == 1 {
            rs == seq![(fs[0].0, val)] + fs.drop_first()
        } else {
            &&& rs.len() == fs.len()
            &&& rs[0].0 == fs[0].0
            &&& json_set_rel(fs[0].1, path.drop_first(), val, rs[0].1)
            &&& rs.drop_first() == fs.drop_first()
        }
    } else {
        &&& rs.len() >= 1
        &&& rs[0] == fs[0]
        &&& fields_set_rel(fs.drop_first(), path, val, rs.drop_first())
    }
}

/// A missing first segment of a longer path leaves the members untouched.
proof fn lemma_fields_set_noop(fs: Seq<(String, JsonValue)>, path: Seq<String>, val: JsonValue)
    requires
        path.len() > 1,
        !has_field(fs, path[0]@),
    ensures
        fields_set_rel(fs, path, val, fs),
    decreases fs.len(),
{
    if fs.len() == 0 {
    } else {
        assert(fs[0].0@ != path[0]@);
        lemma_fields_set_noop(fs.drop_first(), path, val);
    }
}

/// Setting a dotted path whose first segment is missing from the object, on
/// a path of two or more segments, leaves the value untouched.
pub proof fn lemma_json_set_missing_intermediate(
    fields: Vec<(String, JsonValue)>,
    path: Seq<String>,
    val: JsonValue,
)
    requires
        path.len() > 1,
        !has_field(fields@, path[0]@),
    ensures
        json_set_rel(JsonValue::Object(fields), path, val, JsonValue::Object(fields)),
{
    lemma_fields_set_noop(fields@, path, val);
}

/// Setting any non-empty path on a value that is not an object leaves the
/// value untouched.
pub proof fn lemma_json_set_non_object(v: JsonValue, path: Seq<String>, val: JsonValue)
    requires
        path.len() > 0,
        !(v is Object),
    ensures
        json_set_rel(v, path, val, v),
{
}

/// Sets `path[idx..]` to `val` in `v`, exactly as `json_set_rel` describes.
pub fn set_json_path(v: JsonValue, path: &Vec<String>, idx: usize, val: JsonValue) -> (r:
    JsonValue)
    requires
        idx < path@.len(),
    ensures
        json_set_rel(v, path@.skip(idx as int), val, r),
    decreases path@.len() - idx,
{
    let ghost p = path@.skip(idx as int);
    proof {
        assert(p[0] == path@[idx as int]);
        assert(p.len() == path@.len() - idx);
    }
    match v {
        JsonValue::Object(mut fields) => {
            let ghost fs0 = fields@;
            let last = idx == path.len() - 1;
            // find the first member with this key
            let n = fields.len();
            let mut i: usize = 0;
            let mut found: bool = false;
            while i < n && !found
                invariant
                    i <= n,
                    idx < path@.len(),
                    n == fields@.len(),
                    fields@ == fs0,
                    found ==> i < n && fs0[i as int].0@ == path@[idx as int]@,
                    forall|q: int| 0 <= q < i ==> (#[trigger] fs0[q]).0@ != path@[idx as int]@,
                decreases n - i, (if found { 0int } else { 1int }),
            {
                if crate::strutil::str_eq(fields[i].0.as_str(), path[idx].as_str()) {
                    found = true;
                } else {
                    i += 1;
                }
            }
            if found {
                let (k, child) = fields.remove(i);
                if last {
                    let ghost newpair = (k, val);
                    fields.insert(i, (k, val));
                    proof {
                        assert(fields@ =~= fs0.update(i as int, newpair));
                        lemma_fields_set_update(fs0, i as int, p, val, newpair);
                    }
                } else {
                    let nc = set_json_path(child, path, idx + 1, val);
                    let ghost newpair = (k, nc);
                    fields.insert(i, (k, nc));
                    proof {
                        assert(path@.skip(idx + 1) =~= p.drop_first());
                        assert(fields@ =~= fs0.update(i as int, newpair));
                        lemma_fields_set_update(fs0, i as int, p, val, newpair);
                    }
                }
            } else {
                if last {
                    let key = path[idx].clone();
                    let ghost newpair = (key, val);
                    fields.push((key, val));
                    proof {
                        assert(fields@ =~= fs0.push(newpair));
                        assert(newpair.0 == path@[idx as int]);
                        lemma_fields_set_append(fs0, p, val, newpair);
                    }
                } else {
                    proof {
                        lemma_fields_set_noop_exec(fs0, p, val);
                    }
                }
            }
            JsonValue::Object(fields)
        },
        other => other,
    }
}

/// Replacing the first member carrying the key realises the update relation.
proof fn lemma_fields_set_update(
    fs: Seq<(String, JsonValue)>,
    i: int,
    path: Seq<String>,
    val: JsonValue,
    newpair: (String, JsonValue),
)
    requires
        path.len() >= 1,
        0 <= i < fs.len(),
        forall|q: int| 0 <= q < i ==> (#[trigger] fs[q]).0@ != path[0]@,
        fs[i].0@ == path[0]@,
        newpair.0 == fs[i].0,
        path.len() == 1 ==> newpair.1 == val,
        path.len() > 1 ==> json_set_rel(fs[i].1, path.drop_first(), val, newpair.1),
    ensures
        fields_set_rel(fs, path, val, fs.update(i, newpair)),
    decreases i,
{
    let rs = fs.update(i, newpair);
    if i == 0 {
        assert(rs[0] == newpair);
        assert(rs.drop_first() =~= fs.drop_first());
        if path.len() == 1 {
            assert(rs =~= seq![(fs[0].0, val)] + fs.drop_first());
        }
    } else {
        assert(rs[0] == fs[0]);
        assert(fs[0].0@ != path[0]@);
        assert(rs.drop_first() =~= fs.drop_first().update(i - 1, newpair));
        assert(fs.drop_first()[i - 1] == fs[i]);
        assert(forall|q: int|
            0 <= q < i - 1 ==> (#[trigger] fs.drop_first()[q]).0@ != path[0]@);
        lemma_fields_set_update(fs.drop_first(), i - 1, path, val, newpair);
    }
}

/// Appending the member when the key is absent realises the update relation
/// for a one-segment path.
proof fn lemma_fields_set_append(
    fs: Seq<(String, JsonValue)>,
    path: Seq<String>,
    val: JsonValue,
    newpair: (String, JsonValue),
)
    requires
        path.len() == 1,
        forall|q: int| 0 <= q < fs.len() ==> (#[trigger] fs[q]).0@ != path[0]@,
        newpair.0 == path[0],
        newpair.1 == val,
    ensures
        fields_set_rel(fs, path, val, fs.push(newpair)),
    decreases fs.len(),
{
    let rs = fs.push(newpair);
    if fs.len() == 0 {
        assert(rs =~= Seq::<(String, JsonValue)>::empty().push((path[0], val)));
    } else {
        assert(rs[0] == fs[0]);
        assert(rs.drop_first() =~= fs.drop_first().push(newpair));
        assert(forall|q: int|
            0 <= q < fs.drop_first().len() ==> (#[trigger] fs.drop_first()[q]).0@ != path[0]@);
        lemma_fields_set_append(fs.drop_first(), path, val, newpair);
    }
}

/// A missing key on a longer path leaves the members untouched.
proof fn lemma_fields_set_noop_exec(fs: Seq<(String, JsonValue)>, path: Seq<String>, val: JsonValue)
    requires
        path.len() > 1,
        forall|q: int| 0 <= q < fs.len() ==> (#[trigger] fs[q]).0@ != path[0]@,
    ensures
        fields_set_rel(fs, path, val, fs),
    decreases fs.len(),
{
    if fs.len() == 0 {
    } else {
        assert(forall|q: int|
            0 <= q < fs.drop_first().len() ==> (#[trigger] fs.drop_first()[q]).0@ != path[0]@);
        lemma_fields_set_noop_exec(fs.drop_first(), path, val);
    }
}


/// The serialized text of a value: the compact form, with members and
/// elements in order and strings escaped by `escaped_char`.
pub open spec fn json_text(v: JsonValue) -> Seq<char>
    decreases v,
{
    match v {
        JsonValue::Null => "null"@,
        JsonValue::Bool(b) => if b {
            "true"@
        } else {
            "false"@
        },
        JsonValue::Number(n) => n@,
        JsonValue::Text(t) => seq!['"'] + escaped_chars(t@) + seq!['"'],
        JsonValue::Array(items) => seq!['['] + items_text(items@) + seq![']'],
        JsonValue::Object(fields) => seq!['{'] + fields_text(fields@) + seq!['}'],
    }
}

/// Elements joined by commas.
pub open spec fn items_text(items: Seq<JsonValue>) -> Seq<char>
    decreases items,
{
    if items.len() == 0 {
        Seq::empty()
    } else {
        json_text(items[0]) + items_rest_text(items.drop_first())
    }
}

pub open spec fn items_rest_text(items: Seq<JsonValue>) -> Seq<char>
    decreases items,
{
    if items.len() == 0 {
        Seq::empty()
    } else {
        seq![','] + json_text(items[0]) + items_rest_text(items.drop_first())
    }
}

/// Members joined by commas.
pub open spec fn fields_text(fields: Seq<(String, JsonValue)>) -> Seq<char>
    decreases fields,
{
    if fields.len() == 0 {
        Seq::empty()
    } else {
        member_text(fields[0]) + fields_rest_text(fields.drop_first())
    }
}

pub open spec fn fields_rest_text(fields: Seq<(String, JsonValue)>) -> Seq<char>
    decreases fields,
{
    if fields.len() == 0 {
        Seq::empty()
    } else {
        seq![','] + member_text(fields[0]) + fields_rest_text(fields.drop_first())
    }
}

pub open spec fn member_text(f: (String, JsonValue)) -> Seq<char>
    decreases f,
{
    seq!['"'] + escaped_chars(f.0@) + seq!['"'] + seq![':'] + json_text(f.1)
}

/// The escaped form of one character in a JSON string literal.
pub open spec fn escaped_char(c: char) -> Seq<char> {
    if c == '"' {
        seq!['\\', '"']
    } else if c == '\\' {
        seq!['\\', '\\']
    } else if c == '\n' {
        seq!['\\', 'n']
    } else if c == '\r' {
        seq!['\\', 'r']
    } else if c == '\t' {
        seq!['\\', 't']
    } else if c == '\u{8}' {
        seq!['\\', 'b']
    } else if c == '\u{c}' {
        seq!['\\', 'f']
    } else if (c as u32) < 32 {
        seq!['\\', 'u', '0', '0'].push(hex_digit((c as u32) / 16)).push(hex_digit((c as u32) % 16))
    } else {
        seq![c]
    }
}

/// A lower-case hex digit.
pub open spec fn hex_digit(d: u32) -> char {
    if d < 10 {
        crate::strutil::DEC_DIGITS@[d as int]
    } else if d == 10 {
        'a'
    } else if d == 11 {
        'b'
    } else if d == 12 {
        'c'
    } else if d == 13 {
        'd'
    } else if d == 14 {
        'e'
    } else {
        'f'
    }
}

/// The escaped form of a whole string body.
pub open spec fn escaped_chars(s: Seq<char>) -> Seq<char>
    decreases s.len(),
{
    if s.len() == 0 {
        s
    } else {
        escaped_char(s[0]) + escaped_chars(s.drop_first())
    }
}


/// A lower-case hex digit, executable.
fn hex_digit_char(d: u32) -> (r: char)
    requires
        d < 16,
    ensures
        r == hex_digit(d),
{
    if d < 10 {
        crate::strutil::DEC_DIGITS[d as usize]
    } else if d == 10 {
        'a'
    } else if d == 11 {
        'b'
    } else if d == 12 {
        'c'
    } else if d == 13 {
        'd'
    } else if d == 14 {
        'e'
    } else {
        'f'
    }
}

/// Appends the escaped form of a string body.
fn write_escaped(t: &str, out: &mut Vec<char>)
    ensures
        final(out)@ == old(out)@ + escaped_chars(t@),
{
    let cs = crate::strutil::chars_vec(t);
    let n = cs.len();
    let mut i: usize = 0;
    proof {
        assert(cs@.skip(0) =~= cs@);
    }
    while i < n
        invariant
            i <= n,
            n == cs@.len(),
            cs@ == t@,
            old(out)@ + escaped_chars(t@) == out@ + escaped_chars(cs@.skip(i as int)),
        decreases n - i,
    {
        proof {
            assert(cs@.skip(i as int)[0] == cs@[i as int]);
            assert(cs@.skip(i as int).drop_first() =~= cs@.skip(i + 1));
            assert(escaped_chars(cs@.skip(i as int)) == escaped_char(cs@[i as int])
                + escaped_chars(cs@.skip(i + 1)));
        }
        let c = cs[i];
        let ghost before = out@;
        if c == '"' {
            out.push('\\');
            out.push('"');
        } else if c == '\\' {
            out.push('\\');
            out.push('\\');
        } else if c == '\n' {
            out.push('\\');
            out.push('n');
        } else if c == '\r' {
            out.push('\\');
            out.push('r');
        } else if c == '\t' {
            out.push('\\');
            out.push('t');
        } else if c == '\u{8}' {
            out.push('\\');
            out.push('b');
        } else if c == '\u{c}' {
            out.push('\\');
            out.push('f');
        } else if (c as u32) < 32 {
            out.push('\\');
            out.push('u');
            out.push('0');
            out.push('0');
            out.push(hex_digit_char((c as u32) / 16));
            out.push(hex_digit_char((c as u32) % 16));
        } else {
            out.push(c);
        }
        proof {
            assert(out@ =~= before + escaped_char(c));
            assert(out@ + escaped_chars(cs@.skip(i + 1)) =~= old(out)@ + escaped_chars(t@));
        }
        i += 1;
    }
    proof {
        assert(escaped_chars(cs@.skip(n as int)) =~= Seq::<char>::empty());
        assert(out@ =~= old(out)@ + escaped_chars(t@));
    }
}

/// Appends the characters of a string slice.
fn write_raw(t: &str, out: &mut Vec<char>)
    ensures
        final(out)@ == old(out)@ + t@,
{
    let cs = crate::strutil::chars_vec(t);
    let n = cs.len();
    let mut i: usize = 0;
    while i < n
        invariant
            i <= n,
            n == cs@.len(),
            cs@ == t@,
            out@ == old(out)@ + cs@.subrange(0, i as int),
        decreases n - i,
    {
        out.push(cs[i]);
        proof {
            assert(out@ =~= old(out)@ + cs@.subrange(0, i + 1));
        }
        i += 1;
    }
    proof {
        assert(cs@.subrange(0, n as int) =~= cs@);
    }
}

/// Appends the serialized text of a value.
fn write_json(v: &JsonValue, out: &mut Vec<char>)
    ensures
        final(out)@ == old(out)@ + json_text(*v),
    decreases *v,
{
    match v {
        JsonValue::Null => {
            proof {
                reveal_strlit("null");
            }
            out.push('n');
            out.push('u');
            out.push('l');
            out.push('l');
            proof {
                assert(out@ =~= old(out)@ + "null"@);
            }
        },
        JsonValue::Bool(b) => {
            if *b {
                proof {
                    reveal_strlit("true");
                }
                out.push('t');
                out.push('r');
                out.push('u');
                out.push('e');
                proof {
                    assert(out@ =~= old(out)@ + "true"@);
                }
            } else {
                proof {
                    reveal_strlit("false");
                }
                out.push('f');
                out.push('a');
                out.push('l');
                out.push('s');
                out.push('e');
                proof {
                    assert(out@ =~= old(out)@ + "false"@);
                }
            }
        },
        JsonValue::Number(n) => {
            write_raw(n.as_str(), out);
        },
        JsonValue::Text(t) => {
            out.push('"');
            write_escaped(t.as_str(), out);
            out.push('"');
            proof {
                assert(out@ =~= old(out)@ + (seq!['"'] + escaped_chars(t@) + seq!['"']));
            }
        },
        JsonValue::Array(items) => {
            out.push('[');
            write_items(items, out);
            out.push(']');
            proof {
                assert(out@ =~= old(out)@ + (seq!['['] + items_text(items@) + seq![']']));
            }
        },
        JsonValue::Object(fields) => {
            out.push('{');
            write_fields(fields, out);
            out.push('}');
            proof {
                assert(out@ =~= old(out)@ + (seq!['{'] + fields_text(fields@) + seq!['}']));
            }
        },
    }
}

/// Appends comma-joined elements.
fn write_items(items: &Vec<JsonValue>, out: &mut Vec<char>)
    ensures
        final(out)@ == old(out)@ + items_text(items@),
    decreases *items,
{
    let n = items.len();
    if n == 0 {
        proof {
            assert(old(out)@ + items_text(items@) =~= out@);
        }
        return ;
    }
    let ghost base = out@;
    proof {
        assert(decreases_to!(*items => items@[0]));
    }
    write_json(&items[0], out);
    proof {
        assert(items@.drop_first() =~= items@.skip(1));
        assert(items_text(items@) == json_text(items@[0]) + items_rest_text(items@.skip(1)));
    }
    let mut i: usize = 1;
    while i < n
        invariant
            1 <= i <= n,
            n == items@.len(),
            base + items_text(items@) == out@ + items_rest_text(items@.skip(i as int)),
        decreases n - i,
    {
        proof {
            assert(items@.skip(i as int)[0] == items@[i as int]);
            assert(items@.skip(i as int).drop_first() =~= items@.skip(i + 1));
            assert(items_rest_text(items@.skip(i as int)) == seq![','] + json_text(
                items@[i as int],
            ) + items_rest_text(items@.skip(i + 1)));
            assert(decreases_to!(*items => items@[i as int]));
        }
        out.push(',');
        write_json(&items[i], out);
        proof {
            assert(out@ + items_rest_text(items@.skip(i + 1)) =~= base + items_text(items@));
        }
        i += 1;
    }
    proof {
        assert(items_rest_text(items@.skip(n as int)) =~= Seq::<char>::empty());
        assert(out@ =~= base + items_text(items@));
    }
}

/// Appends comma-joined members.
fn write_fields(fields: &Vec<(String, JsonValue)>, out: &mut Vec<char>)
    ensures
        final(out)@ == old(out)@ + fields_text(fields@),
    decreases *fields,
{
    let n = fields.len();
    if n == 0 {
        proof {
            assert(old(out)@ + fields_text(fields@) =~= out@);
        }
        return ;
    }
    let ghost base = out@;
    proof {
        assert(decreases_to!(*fields => fields@[0]));
        assert(decreases_to!(fields@[0] => fields@[0].1));
    }
    out.push('"');
    write_escaped(fields[0].0.as_str(), out);
    out.push('"');
    out.push(':');
    write_json(&fields[0].1, out);
    proof {
        assert(out@ =~= base + member_text(fields@[0]));
        assert(fields@.drop_first() =~= fields@.skip(1));
        assert(fields_text(fields@) == member_text(fields@[0]) + fields_rest_text(
            fields@.skip(1),
        ));
    }
    let mut i: usize = 1;
    while i < n
        invariant
            1 <= i <= n,
            n == fields@.len(),
            base + fields_text(fields@) == out@ + fields_rest_text(fields@.skip(i as int)),
        decreases n - i,
    {
        proof {
            assert(fields@.skip(i as int)[0] == fields@[i as int]);
            assert(fields@.skip(i as int).drop_first() =~= fields@.skip(i + 1));
            assert(fields_rest_text(fields@.skip(i as int)) == seq![','] + member_text(
                fields@[i as int],
            ) + fields_rest_text(fields@.skip(i + 1)));
            assert(decreases_to!(*fields => fields@[i as int]));
            assert(decreases_to!(fields@[i as int] => fields@[i as int].1));
        }
        out.push(',');
        let ghost mid = out@;
        out.push('"');
        write_escaped(fields[i].0.as_str(), out);
        out.push('"');
        out.push(':');
        write_json(&fields[i].1, out);
        proof {
            assert(out@ =~= mid + member_text(fields@[i as int]));
            assert(out@ + fields_rest_text(fields@.skip(i + 1)) =~= base + fields_text(fields@));
        }
        i += 1;
    }
    proof {
        assert(fields_rest_text(fields@.skip(n as int)) =~= Seq::<char>::empty());
        assert(out@ =~= base + fields_text(fields@));
    }
}

/// The serialized text of a value, as a string.
pub fn json_to_string(v: &JsonValue) -> (r: String)
    ensures
        r@ == json_text(*v),
{
    let mut out: Vec<char> = Vec::new();
    write_json(v, &mut out);
    proof {
        assert(out@ =~= json_text(*v));
    }
    chars_to_string(&out)
}


/// Trigger markers for position witnesses (always true).
pub open spec fn posw1(x: int) -> bool {
    true
}

pub open spec fn posw2(x: int, y: int) -> bool {
    true
}

pub open spec fn posw3(x: int, y: int, z: int) -> bool {
    true
}

pub open spec fn posw5(x: int, y: int, z: int, u: int, v: int) -> bool {
    true
}

pub open spec fn posw6(x: int, y: int, z: int, u: int, v: int, w: int) -> bool {
    true
}

/// A span of JSON whitespace.
pub open spec fn is_ws_char(c: char) -> bool {
    c == ' ' || c == '\t' || c == '\n' || c == '\r'
}

pub open spec fn ws_span(t: Seq<char>, a: int, b: int) -> bool {
    0 <= a <= b <= t.len() && forall|k: int| a <= k < b ==> is_ws_char(#[trigger] t[k])
}

/// The value of a hex digit, if the character is one.
pub open spec fn hexv(c: char) -> Option<u32> {
    let u = c as u32;
    if 48 <= u <= 57 {
        Some((u - 48) as u32)
    } else if 97 <= u <= 102 {
        Some((u - 97 + 10) as u32)
    } else if 65 <= u <= 70 {
        Some((u - 65 + 10) as u32)
    } else {
        None
    }
}

/// The code named by four hex digits at `a`.
pub open spec fn hex4(t: Seq<char>, a: int) -> Option<u32> {
    if a + 4 <= t.len() && hexv(t[a]) is Some && hexv(t[a + 1]) is Some && hexv(t[a + 2]) is Some
        && hexv(t[a + 3]) is Some {
        Some(
            (hexv(t[a]).unwrap() * 4096 + hexv(t[a + 1]).unwrap() * 256 + hexv(
                t[a + 2],
            ).unwrap() * 16 + hexv(t[a + 3]).unwrap()) as u32,
        )
    } else {
        None
    }
}

/// One character of a string literal's body: the text from `a` to `e` spells
/// the character `c`, either plainly or as an escape.
pub open spec fn char_token(t: Seq<char>, a: int, e: int, c: char) -> bool {
    &&& 0 <= a < e <= t.len()
    &&& if t[a] == '\\' {
        if e == a + 2 {
            ||| (t[a + 1] == '"' && c == '"')
            ||| (t[a + 1] == '\\' && c == '\\')
            ||| (t[a + 1] == '/' && c == '/')
            ||| (t[a + 1] == 'b' && c == '\u{8}')
            ||| (t[a + 1] == 'f' && c == '\u{c}')
            ||| (t[a + 1] == 'n' && c == '\n')
            ||| (t[a + 1] == 'r' && c == '\r')
            ||| (t[a + 1] == 't' && c == '\t')
        } else if e == a + 6 {
            &&& t[a + 1] == 'u'
            &&& hex4(t, a + 2) is Some
            &&& !(0xD800 <= hex4(t, a + 2).unwrap() < 0xE000)
            &&& c as u32 == hex4(t, a + 2).unwrap()
        } else if e == a + 12 {
            &&& t[a + 1] == 'u'
            &&& hex4(t, a + 2) is Some
            &&& 0xD800 <= hex4(t, a + 2).unwrap() < 0xDC00
            &&& t[a + 6] == '\\' && t[a + 7] == 'u'
            &&& hex4(t, a + 8) is Some
            &&& 0xDC00 <= hex4(t, a + 8).unwrap() < 0xE000
            &&& c as u32 == 0x10000 + (hex4(t, a + 2).unwrap() - 0xD800) * 1024 + (hex4(
                t,
                a + 8,
            ).unwrap() - 0xDC00)
        } else {
            false
        }
    } else {
        e == a + 1 && t[a] != '"' && (t[a] as u32) >= 32 && c == t[a]
    }
}

/// The text from `a` to `b` spells the string body `s`, token by token.
pub open spec fn str_body(t: Seq<char>, a: int, b: int, s: Seq<char>) -> bool
    decreases s.len(),
{
    if s.len() == 0 {
        0 <= a <= t.len() && a == b
    } else {
        exists|e: int|
            #[trigger] posw1(e) && char_token(t, a, e, s[0]) && str_body(t, e, b, s.drop_first())
    }
}

/// The text from `a` to `e` is a quoted string literal spelling `s`.
pub open spec fn str_lit(t: Seq<char>, a: int, e: int, s: Seq<char>) -> bool {
    &&& 0 <= a && e <= t.len() && a + 2 <= e
    &&& t[a] == '"' && t[e - 1] == '"'
    &&& str_body(t, a + 1, e - 1, s)
}

/// The text from `a` to `e` spells the number `n` (its raw spelling).
pub open spec fn num_lit(t: Seq<char>, a: int, e: int, n: Seq<char>) -> bool {
    &&& 0 <= a <= e <= t.len()
    &&& t.subrange(a, e) == n
    &&& n.len() > 0
    &&& (n[0] == '-' || crate::strutil::is_dec_digit(n[0]))
}

/// The text from `a` to `e` spells the value `v`, with no surrounding
/// whitespace.
pub open spec fn value_at(t: Seq<char>, a: int, e: int, v: JsonValue) -> bool
    decreases v, 0int,
{
    match v {
        JsonValue::Null => 0 <= a <= e <= t.len() && t.subrange(a, e) == "null"@,
        JsonValue::Bool(b) => 0 <= a <= e <= t.len() && t.subrange(a, e) == (if b {
            "true"@
        } else {
            "false"@
        }),
        JsonValue::Number(n) => num_lit(t, a, e, n@),
        JsonValue::Text(s) => str_lit(t, a, e, s@),
        JsonValue::Array(items) => {
            &&& 0 <= a && e <= t.len() && a + 2 <= e
            &&& t[a] == '[' && t[e - 1] == ']'
            &&& elems_at(t, a + 1, e - 1, items@)
        },
        JsonValue::Object(fields) => {
            &&& 0 <= a && e <= t.len() && a + 2 <= e
            &&& t[a] == '{' && t[e - 1] == '}'
            &&& members_at(t, a + 1, e - 1, fields@)
        },
    }
}

/// The elements of an array between the brackets.
pub open spec fn elems_at(t: Seq<char>, a: int, b: int, items: Seq<JsonValue>) -> bool
    decreases items, 2int,
{
    if items.len() == 0 {
        ws_span(t, a, b)
    } else {
        exists|c: int, d: int| #[trigger] posw2(c, d) && first_elem(t, a, b, c, d, items)
    }
}

/// The first element spans `c..d` after leading whitespace; the rest follow.
pub open spec fn first_elem(t: Seq<char>, a: int, b: int, c: int, d: int, items: Seq<JsonValue>) -> bool
    decreases items, 1int,
{
    &&& items.len() > 0
    &&& ws_span(t, a, c)
    &&& value_at(t, c, d, items[0])
    &&& rest_elems(t, d, b, items.drop_first())
}

/// The remaining elements, each preceded by a comma.
pub open spec fn rest_elems(t: Seq<char>, d: int, b: int, items: Seq<JsonValue>) -> bool
    decreases items, 2int,
{
    if items.len() == 0 {
        ws_span(t, d, b)
    } else {
        exists|m: int, c: int, dd: int|
            #[trigger] posw3(m, c, dd) && next_elem(t, d, b, m, c, dd, items)
    }
}

/// After a comma at `m`, the next element spans `c..dd`; the rest follow.
pub open spec fn next_elem(
    t: Seq<char>,
    d: int,
    b: int,
    m: int,
    c: int,
    dd: int,
    items: Seq<JsonValue>,
) -> bool
    decreases items, 1int,
{
    &&& items.len() > 0
    &&& ws_span(t, d, m)
    &&& m < t.len() && t[m] == ','
    &&& ws_span(t, m + 1, c)
    &&& value_at(t, c, dd, items[0])
    &&& rest_elems(t, dd, b, items.drop_first())
}

/// The members of an object between the braces, in textual order.
pub open spec fn members_at(t: Seq<char>, a: int, b: int, fields: Seq<(String, JsonValue)>) -> bool
    decreases fields, 2int,
{
    if fields.len() == 0 {
        ws_span(t, a, b)
    } else {
        exists|c: int, d: int, m: int, f: int, g: int|
            #[trigger] posw5(c, d, m, f, g) && first_member(t, a, b, c, d, m, f, g, fields)
    }
}

/// The first member: its key spans `c..d`, a colon at `m`, its value `f..g`.
pub open spec fn first_member(
    t: Seq<char>,
    a: int,
    b: int,
    c: int,
    d: int,
    m: int,
    f: int,
    g: int,
    fields: Seq<(String, JsonValue)>,
) -> bool
    decreases fields, 1int,
{
    &&& fields.len() > 0
    &&& ws_span(t, a, c)
    &&& str_lit(t, c, d, fields[0].0@)
    &&& ws_span(t, d, m)
    &&& m < t.len() && t[m] == ':'
    &&& ws_span(t, m + 1, f)
    &&& value_at(t, f, g, fields[0].1)
    &&& rest_members(t, g, b, fields.drop_first())
}

/// The remaining members, each preceded by a comma.
pub open spec fn rest_members(t: Seq<char>, g: int, b: int, fields: Seq<(String, JsonValue)>) -> bool
    decreases fields, 2int,
{
    if fields.len() == 0 {
        ws_span(t, g, b)
    } else {
        exists|m: int, c: int, d: int, mm: int, f: int, g2: int|
            #[trigger] posw6(m, c, d, mm, f, g2) && next_member(t, g, b, m, c, d, mm, f, g2, fields)
    }
}

/// After a comma at `m`, the next member: key `c..d`, colon at `mm`, value
/// `f..g2`.
pub open spec fn next_member(
    t: Seq<char>,
    g: int,
    b: int,
    m: int,
    c: int,
    d: int,
    mm: int,
    f: int,
    g2: int,
    fields: Seq<(String, JsonValue)>,
) -> bool
    decreases fields, 1int,
{
    &&& fields.len() > 0
    &&& ws_span(t, g, m)
    &&& m < t.len() && t[m] == ','
    &&& ws_span(t, m + 1, c)
    &&& str_lit(t, c, d, fields[0].0@)
    &&& ws_span(t, d, mm)
    &&& mm < t.len() && t[mm] == ':'
    &&& ws_span(t, mm + 1, f)
    &&& value_at(t, f, g2, fields[0].1)
    &&& rest_members(t, g2, b, fields.drop_first())
}

/// The whole text spells the value `v`: one value, possibly surrounded by
/// whitespace, covering everything.
pub open spec fn parses_to(t: Seq<char>, v: JsonValue) -> bool {
    exists|a: int, e: int|
        #[trigger] posw2(a, e) && ws_span(t, 0, a) && value_at(t, a, e, v) && ws_span(
            t,
            e,
            t.len() as int,
        )
}

/// Elements consumed so far: like `elems_at`, but ending exactly at the end
/// of the last value instead of at the closing bracket.
pub open spec fn elems_upto(t: Seq<char>, a: int, d: int, items: Seq<JsonValue>) -> bool
    decreases items, 4int,
{
    items.len() > 0 && exists|c: int, dd: int|
        #[trigger] posw2(c, dd) && first_elem_upto(t, a, d, c, dd, items)
}

pub open spec fn first_elem_upto(
    t: Seq<char>,
    a: int,
    d: int,
    c: int,
    dd: int,
    items: Seq<JsonValue>,
) -> bool
    decreases items, 3int,
{
    &&& items.len() > 0
    &&& ws_span(t, a, c)
    &&& value_at(t, c, dd, items[0])
    &&& rest_upto(t, dd, d, items.drop_first())
}

pub open spec fn rest_upto(t: Seq<char>, dd: int, d: int, items: Seq<JsonValue>) -> bool
    decreases items, 4int,
{
    if items.len() == 0 {
        dd == d
    } else {
        exists|m: int, c: int, d2: int|
            #[trigger] posw3(m, c, d2) && next_elem_upto(t, dd, d, m, c, d2, items)
    }
}

pub open spec fn next_elem_upto(
    t: Seq<char>,
    dd: int,
    d: int,
    m: int,
    c: int,
    d2: int,
    items: Seq<JsonValue>,
) -> bool
    decreases items, 3int,
{
    &&& items.len() > 0
    &&& ws_span(t, dd, m)
    &&& m < t.len() && t[m] == ','
    &&& ws_span(t, m + 1, c)
    &&& value_at(t, c, d2, items[0])
    &&& rest_upto(t, d2, d, items.drop_first())
}

/// Consumed elements followed by closing whitespace are the bracket contents.
proof fn lemma_elems_close(t: Seq<char>, a: int, d: int, b: int, items: Seq<JsonValue>)
    requires
        elems_upto(t, a, d, items),
        ws_span(t, d, b),
    ensures
        elems_at(t, a, b, items),
{
    let (c, dd) = choose|c: int, dd: int|
        #[trigger] posw2(c, dd) && first_elem_upto(t, a, d, c, dd, items);
    lemma_rest_close(t, dd, d, b, items.drop_first());
    assert(posw2(c, dd) && first_elem(t, a, b, c, dd, items));
}

proof fn lemma_rest_close(t: Seq<char>, dd: int, d: int, b: int, items: Seq<JsonValue>)
    requires
        rest_upto(t, dd, d, items),
        ws_span(t, d, b),
    ensures
        rest_elems(t, dd, b, items),
    decreases items,
{
    if items.len() == 0 {
    } else {
        let (m, c, d2) = choose|m: int, c: int, d2: int|
            #[trigger] posw3(m, c, d2) && next_elem_upto(t, dd, d, m, c, d2, items);
        lemma_rest_close(t, d2, d, b, items.drop_first());
        assert(posw3(m, c, d2) && next_elem(t, dd, b, m, c, d2, items));
    }
}

/// One more element extends the consumed-elements relation.
proof fn lemma_elems_extend(
    t: Seq<char>,
    a: int,
    d: int,
    m: int,
    c: int,
    d2: int,
    items: Seq<JsonValue>,
    v: JsonValue,
)
    requires
        elems_upto(t, a, d, items),
        ws_span(t, d, m),
        m < t.len() && t[m] == ',',
        ws_span(t, m + 1, c),
        value_at(t, c, d2, v),
    ensures
        elems_upto(t, a, d2, items.push(v)),
{
    let (c0, dd0) = choose|c0: int, dd0: int|
        #[trigger] posw2(c0, dd0) && first_elem_upto(t, a, d, c0, dd0, items);
    lemma_rest_extend(t, dd0, d, m, c, d2, items.drop_first(), v);
    let u = items.push(v);
    assert(u[0] == items[0]);
    assert(u.drop_first() =~= items.drop_first().push(v));
    assert(posw2(c0, dd0) && first_elem_upto(t, a, d2, c0, dd0, u));
}

proof fn lemma_rest_extend(
    t: Seq<char>,
    dd: int,
    d: int,
    m: int,
    c: int,
    d2: int,
    items: Seq<JsonValue>,
    v: JsonValue,
)
    requires
        rest_upto(t, dd, d, items),
        ws_span(t, d, m),
        m < t.len() && t[m] == ',',
        ws_span(t, m + 1, c),
        value_at(t, c, d2, v),
    ensures
        rest_upto(t, dd, d2, items.push(v)),
    decreases items,
{
    let u = items.push(v);
    if items.len() == 0 {
        assert(u[0] == v);
        assert(u.drop_first() =~= Seq::<JsonValue>::empty());
        assert(rest_upto(t, d2, d2, u.drop_first()));
        assert(posw3(m, c, d2) && next_elem_upto(t, dd, d2, m, c, d2, u));
    } else {
        let (m0, c0, dd2) = choose|m0: int, c0: int, dd2: int|
            #[trigger] posw3(m0, c0, dd2) && next_elem_upto(t, dd, d, m0, c0, dd2, items);
        lemma_rest_extend(t, dd2, d, m, c, d2, items.drop_first(), v);
        assert(u[0] == items[0]);
        assert(u.drop_first() =~= items.drop_first().push(v));
        assert(posw3(m0, c0, dd2) && next_elem_upto(t, dd, d2, m0, c0, dd2, u));
    }
}

/// Members consumed so far, ending at the end of the last member's value.
pub open spec fn members_upto(t: Seq<char>, a: int, d: int, fields: Seq<(String, JsonValue)>) -> bool
    decreases fields, 4int,
{
    fields.len() > 0 && exists|c: int, kd: int, m: int, f: int, g: int|
        #[trigger] posw5(c, kd, m, f, g) && first_member_upto(t, a, d, c, kd, m, f, g, fields)
}

pub open spec fn first_member_upto(
    t: Seq<char>,
    a: int,
    d: int,
    c: int,
    kd: int,
    m: int,
    f: int,
    g: int,
    fields: Seq<(String, JsonValue)>,
) -> bool
    decreases fields, 3int,
{
    &&& fields.len() > 0
    &&& ws_span(t, a, c)
    &&& str_lit(t, c, kd, fields[0].0@)
    &&& ws_span(t, kd, m)
    &&& m < t.len() && t[m] == ':'
    &&& ws_span(t, m + 1, f)
    &&& value_at(t, f, g, fields[0].1)
    &&& mrest_upto(t, g, d, fields.drop_first())
}

pub open spec fn mrest_upto(t: Seq<char>, g: int, d: int, fields: Seq<(String, JsonValue)>) -> bool
    decreases fields, 4int,
{
    if fields.len() == 0 {
        g == d
    } else {
        exists|m: int, c: int, kd: int, mm: int, f: int, g2: int|
            #[trigger] posw6(m, c, kd, mm, f, g2) && next_member_upto(
                t,
                g,
                d,
                m,
                c,
                kd,
                mm,
                f,
                g2,
                fields,
            )
    }
}

pub open spec fn next_member_upto(
    t: Seq<char>,
    g: int,
    d: int,
    m: int,
    c: int,
    kd: int,
    mm: int,
    f: int,
    g2: int,
    fields: Seq<(String, JsonValue)>,
) -> bool
    decreases fields, 3int,
{
    &&& fields.len() > 0
    &&& ws_span(t, g, m)
    &&& m < t.len() && t[m] == ','
    &&& ws_span(t, m + 1, c)
    &&& str_lit(t, c, kd, fields[0].0@)
    &&& ws_span(t, kd, mm)
    &&& mm < t.len() && t[mm] == ':'
    &&& ws_span(t, mm + 1, f)
    &&& value_at(t, f, g2, fields[0].1)
    &&& mrest_upto(t, g2, d, fields.drop_first())
}

/// Consumed members followed by closing whitespace are the brace contents.
proof fn lemma_members_close(t: Seq<char>, a: int, d: int, b: int, fields: Seq<(String, JsonValue)>)
    requires
        members_upto(t, a, d, fields),
        ws_span(t, d, b),
    ensures
        members_at(t, a, b, fields),
{
    let (c, kd, m, f, g) = choose|c: int, kd: int, m: int, f: int, g: int|
        #[trigger] posw5(c, kd, m, f, g) && first_member_upto(t, a, d, c, kd, m, f, g, fields);
    lemma_mrest_close(t, g, d, b, fields.drop_first());
    assert(posw5(c, kd, m, f, g) && first_member(t, a, b, c, kd, m, f, g, fields));
}

proof fn lemma_mrest_close(t: Seq<char>, g: int, d: int, b: int, fields: Seq<(String, JsonValue)>)
    requires
        mrest_upto(t, g, d, fields),
        ws_span(t, d, b),
    ensures
        rest_members(t, g, b, fields),
    decreases fields,
{
    if fields.len() == 0 {
    } else {
        let (m, c, kd, mm, f, g2) = choose|m: int, c: int, kd: int, mm: int, f: int, g2: int|
            #[trigger] posw6(m, c, kd, mm, f, g2) && next_member_upto(
                t,
                g,
                d,
                m,
                c,
                kd,
                mm,
                f,
                g2,
                fields,
            );
        lemma_mrest_close(t, g2, d, b, fields.drop_first());
        assert(posw6(m, c, kd, mm, f, g2) && next_member(t, g, b, m, c, kd, mm, f, g2, fields));
    }
}

/// One more member extends the consumed-members relation.
proof fn lemma_members_extend(
    t: Seq<char>,
    a: int,
    d: int,
    m: int,
    c: int,
    kd: int,
    mm: int,
    f: int,
    g2: int,
    fields: Seq<(String, JsonValue)>,
    p: (String, JsonValue),
)
    requires
        members_upto(t, a, d, fields),
        ws_span(t, d, m),
        m < t.len() && t[m] == ',',
        ws_span(t, m + 1, c),
        str_lit(t, c, kd, p.0@),
        ws_span(t, kd, mm),
        mm < t.len() && t[mm] == ':',
        ws_span(t, mm + 1, f),
        value_at(t, f, g2, p.1),
    ensures
        members_upto(t, a, g2, fields.push(p)),
{
    let (c0, kd0, m0, f0, g0) = choose|c0: int, kd0: int, m0: int, f0: int, g0: int|
        #[trigger] posw5(c0, kd0, m0, f0, g0) && first_member_upto(
            t,
            a,
            d,
            c0,
            kd0,
            m0,
            f0,
            g0,
            fields,
        );
    lemma_mrest_extend(t, g0, d, m, c, kd, mm, f, g2, fields.drop_first(), p);
    let u = fields.push(p);
    assert(u[0] == fields[0]);
    assert(u.drop_first() =~= fields.drop_first().push(p));
    assert(posw5(c0, kd0, m0, f0, g0) && first_member_upto(t, a, g2, c0, kd0, m0, f0, g0, u));
}

proof fn lemma_mrest_extend(
    t: Seq<char>,
    g: int,
    d: int,
    m: int,
    c: int,
    kd: int,
    mm: int,
    f: int,
    g2: int,
    fields: Seq<(String, JsonValue)>,
    p: (String, JsonValue),
)
    requires
        mrest_upto(t, g, d, fields),
        ws_span(t, d, m),
        m < t.len() && t[m] == ',',
        ws_span(t, m + 1, c),
        str_lit(t, c, kd, p.0@),
        ws_span(t, kd, mm),
        mm < t.len() && t[mm] == ':',
        ws_span(t, mm + 1, f),
        value_at(t, f, g2, p.1),
    ensures
        mrest_upto(t, g, g2, fields.push(p)),
    decreases fields,
{
    let u = fields.push(p);
    if fields.len() == 0 {
        assert(u[0] == p);
        assert(u.drop_first() =~= Seq::<(String, JsonValue)>::empty());
        assert(mrest_upto(t, g2, g2, u.drop_first()));
        assert(posw6(m, c, kd, mm, f, g2) && next_member_upto(t, g, g2, m, c, kd, mm, f, g2, u));
    } else {
        let (m0, c0, kd0, mm0, f0, g0) = choose|
            m0: int,
            c0: int,
            kd0: int,
            mm0: int,
            f0: int,
            g0: int,
        |
            #[trigger] posw6(m0, c0, kd0, mm0, f0, g0) && next_member_upto(
                t,
                g,
                d,
                m0,
                c0,
                kd0,
                mm0,
                f0,
                g0,
                fields,
            );
        lemma_mrest_extend(t, g0, d, m, c, kd, mm, f, g2, fields.drop_first(), p);
        assert(u[0] == fields[0]);
        assert(u.drop_first() =~= fields.drop_first().push(p));
        assert(posw6(m0, c0, kd0, mm0, f0, g0) && next_member_upto(
            t,
            g,
            g2,
            m0,
            c0,
            kd0,
            mm0,
            f0,
            g0,
            u,
        ));
    }
}

/// Relies on `char::from_u32`: `Some` exactly for the valid scalar values
/// (below the surrogate range, or between it and the largest code point),
/// carrying that value.
#[verifier::external_body]
fn char_from_u32(v: u32) -> (r: Option<char>)
    ensures
        r is Some <==> (v < 0xD800 || (0xE000 <= v && v <= 0x10FFFF)),
        r is Some ==> r.unwrap() as u32 == v,
{
    char::from_u32(v)
}

/// The value of a hex digit, if the character is one.
fn hex_val(c: char) -> (r: Option<u32>)
    ensures
        r == hexv(c),
        r is Some ==> r.unwrap() < 16,
{
    let u = c as u32;
    if u >= 48 && u <= 57 {
        Some(u - 48)
    } else if u >= 97 && u <= 102 {
        Some(u - 97 + 10)
    } else if u >= 65 && u <= 70 {
        Some(u - 65 + 10)
    } else {
        None
    }
}

fn is_json_ws(c: char) -> (r: bool) {
    c == ' ' || c == '\t' || c == '\n' || c == '\r'
}

/// Skips JSON whitespace.
fn skip_ws(s: &Vec<char>, pos: usize) -> (r: usize)
    requires
        pos <= s@.len(),
    ensures
        pos <= r <= s@.len(),
        ws_span(s@, pos as int, r as int),
{
    let n = s.len();
    let mut p = pos;
    while p < n && (s[p] == ' ' || s[p] == '\t' || s[p] == '\n' || s[p] == '\r')
        invariant
            pos <= p <= n,
            n == s@.len(),
            ws_span(s@, pos as int, p as int),
        decreases n - p,
    {
        p += 1;
    }
    p
}

/// The first element opens the consumed-elements relation.
proof fn lemma_elems_first(t: Seq<char>, a: int, c: int, d: int, v: JsonValue, u: Seq<JsonValue>)
    requires
        ws_span(t, a, c),
        value_at(t, c, d, v),
        u =~= Seq::<JsonValue>::empty().push(v),
    ensures
        elems_upto(t, a, d, u),
{
    assert(u[0] == v);
    assert(u.drop_first() =~= Seq::<JsonValue>::empty());
    assert(rest_upto(t, d, d, u.drop_first()));
    assert(posw2(c, d) && first_elem_upto(t, a, d, c, d, u));
}

/// The first member opens the consumed-members relation.
proof fn lemma_members_first(
    t: Seq<char>,
    a: int,
    c: int,
    kd: int,
    m: int,
    f: int,
    g: int,
    p: (String, JsonValue),
    u: Seq<(String, JsonValue)>,
)
    requires
        ws_span(t, a, c),
        str_lit(t, c, kd, p.0@),
        ws_span(t, kd, m),
        m < t.len() && t[m] == ':',
        ws_span(t, m + 1, f),
        value_at(t, f, g, p.1),
        u =~= Seq::<(String, JsonValue)>::empty().push(p),
    ensures
        members_upto(t, a, g, u),
{
    assert(u[0] == p);
    assert(u.drop_first() =~= Seq::<(String, JsonValue)>::empty());
    assert(mrest_upto(t, g, g, u.drop_first()));
    assert(posw5(c, kd, m, f, g) && first_member_upto(t, a, g, c, kd, m, f, g, u));
}

/// One consumed token extends the decoded prefix.
proof fn lemma_str_step(t: Seq<char>, start: int, p: int, e: int, c: char, outv: Seq<char>)
    requires
        char_token(t, p, e, c),
        forall|b: int, s2: Seq<char>|
            #[trigger] str_body(t, p, b, s2) ==> str_body(t, start, b, outv + s2),
    ensures
        forall|b: int, s2: Seq<char>|
            #[trigger] str_body(t, e, b, s2) ==> str_body(t, start, b, outv.push(c) + s2),
{
    assert forall|b: int, s2: Seq<char>| #[trigger] str_body(t, e, b, s2) implies str_body(
        t,
        start,
        b,
        outv.push(c) + s2,
    ) by {
        let s3 = seq![c] + s2;
        assert(s3[0] == c);
        assert(s3.drop_first() =~= s2);
        assert(posw1(e) && char_token(t, p, e, s3[0]) && str_body(t, e, b, s3.drop_first()));
        assert(str_body(t, p, b, s3));
        assert(str_body(t, start, b, outv + s3));
        assert(outv + s3 =~= outv.push(c) + s2);
    }
}

/// Parses a JSON string literal starting at the opening quote. Yields the
/// decoded text and the position after the closing quote, exactly a
/// `str_lit` of the text. Escaped surrogate pairs are combined; a lone
/// surrogate fails the parse.
#[verifier::rlimit(100)]
fn parse_string_at(s: &Vec<char>, pos: usize) -> (r: Option<(String, usize)>)
    requires
        pos < s@.len(),
    ensures
        r is Some ==> pos < r.unwrap().1 <= s@.len() && str_lit(
            s@,
            pos as int,
            r.unwrap().1 as int,
            r.unwrap().0@,
        ),
    decreases s@.len() - pos,
{
    if s[pos] != '"' {
        return None;
    }
    let n = s.len();
    let mut out: Vec<char> = Vec::new();
    let mut p = pos + 1;
    proof {
        assert forall|b: int, s2: Seq<char>| #[trigger] str_body(s@, p as int, b, s2)
            implies str_body(s@, pos + 1, b, out@ + s2) by {
            assert(out@ + s2 =~= s2);
        }
    }
    while p < n
        invariant
            pos < p <= n,
            n == s@.len(),
            s@[pos as int] == '"',
            forall|b: int, s2: Seq<char>|
                #[trigger] str_body(s@, p as int, b, s2) ==> str_body(
                    s@,
                    pos + 1,
                    b,
                    out@ + s2,
                ),
        decreases n - p,
    {
        let c = s[p];
        if c == '"' {
            proof {
                assert(str_body(s@, p as int, p as int, Seq::<char>::empty()));
                assert(str_body(s@, pos + 1, p as int, out@ + Seq::<char>::empty()));
                assert(out@ + Seq::<char>::empty() =~= out@);
                assert(str_lit(s@, pos as int, p + 1, out@));
            }
            return Some((chars_to_string(&out), p + 1));
        } else if c == '\\' {
            if p + 1 >= n {
                return None;
            }
            let e = s[p + 1];
            if e == '"' {
                proof {
                    assert(char_token(s@, p as int, p + 2, '"'));
                    lemma_str_step(s@, pos + 1, p as int, p + 2, '"', out@);
                }
                out.push('"');
                p += 2;
            } else if e == '\\' {
                proof {
                    assert(char_token(s@, p as int, p + 2, '\\'));
                    lemma_str_step(s@, pos + 1, p as int, p + 2, '\\', out@);
                }
                out.push('\\');
                p += 2;
            } else if e == '/' {
                proof {
                    assert(char_token(s@, p as int, p + 2, '/'));
                    lemma_str_step(s@, pos + 1, p as int, p + 2, '/', out@);
                }
                out.push('/');
                p += 2;
            } else if e == 'b' {
                proof {
                    assert(char_token(s@, p as int, p + 2, '\u{8}'));
                    lemma_str_step(s@, pos + 1, p as int, p + 2, '\u{8}', out@);
                }
                out.push('\u{8}');
                p += 2;
            } else if e == 'f' {
                proof {
                    assert(char_token(s@, p as int, p + 2, '\u{c}'));
                    lemma_str_step(s@, pos + 1, p as int, p + 2, '\u{c}', out@);
                }
                out.push('\u{c}');
                p += 2;
            } else if e == 'n' {
                proof {
                    assert(char_token(s@, p as int, p + 2, '\n'));
                    lemma_str_step(s@, pos + 1, p as int, p + 2, '\n', out@);
                }
                out.push('\n');
                p += 2;
            } else if e == 'r' {
                proof {
                    assert(char_token(s@, p as int, p + 2, '\r'));
                    lemma_str_step(s@, pos + 1, p as int, p + 2, '\r', out@);
                }
                out.push('\r');
                p += 2;
            } else if e == 't' {
                proof {
                    assert(char_token(s@, p as int, p + 2, '\t'));
                    lemma_str_step(s@, pos + 1, p as int, p + 2, '\t', out@);
                }
                out.push('\t');
                p += 2;
            } else if e == 'u' {
                if n - p < 6 {
                    return None;
                }
                let h0 = hex_val(s[p + 2]);
                let h1 = hex_val(s[p + 3]);
                let h2 = hex_val(s[p + 4]);
                let h3 = hex_val(s[p + 5]);
                let code: u32 = match (h0, h1, h2, h3) {
                    (Some(a), Some(b), Some(cc), Some(d)) => a * 4096 + b * 256 + cc * 16 + d,
                    _ => {
                        return None;
                    },
                };
                proof {
                    assert(hex4(s@, p + 2) == Some(code));
                }
                if code >= 0xD800 && code <= 0xDBFF {
                    // a high surrogate: the low half must follow, escaped
                    if n - p < 12 {
                        return None;
                    }
                    if s[p + 6] != '\\' || s[p + 7] != 'u' {
                        return None;
                    }
                    let l0 = hex_val(s[p + 8]);
                    let l1 = hex_val(s[p + 9]);
                    let l2 = hex_val(s[p + 10]);
                    let l3 = hex_val(s[p + 11]);
                    let low: u32 = match (l0, l1, l2, l3) {
                        (Some(a), Some(b), Some(cc), Some(d)) => a * 4096 + b * 256 + cc * 16
                            + d,
                        _ => {
                            return None;
                        },
                    };
                    if !(low >= 0xDC00 && low <= 0xDFFF) {
                        return None;
                    }
                    proof {
                        assert(hex4(s@, p + 8) == Some(low));
                    }
                    let combined: u32 = 0x10000 + (code - 0xD800) * 1024 + (low - 0xDC00);
                    match char_from_u32(combined) {
                        Some(ch) => {
                            proof {
                                assert(char_token(s@, p as int, p + 12, ch));
                                lemma_str_step(s@, pos + 1, p as int, p + 12, ch, out@);
                            }
                            out.push(ch);
                            p += 12;
                        },
                        None => {
                            return None;
                        },
                    }
                } else {
                    match char_from_u32(code) {
                        Some(ch) => {
                            proof {
                                assert(!(0xD800 <= code < 0xE000));
                                assert(char_token(s@, p as int, p + 6, ch));
                                lemma_str_step(s@, pos + 1, p as int, p + 6, ch, out@);
                            }
                            out.push(ch);
                            p += 6;
                        },
                        None => {
                            return None;
                        },
                    }
                }
            } else {
                return None;
            }
        } else if (c as u32) < 32 {
            return None;
        } else {
            proof {
                assert(char_token(s@, p as int, p + 1, c));
                lemma_str_step(s@, pos + 1, p as int, p + 1, c, out@);
            }
            out.push(c);
            p += 1;
        }
    }
    None
}

/// Parses a JSON number starting at `pos`, keeping its spelling: exactly a
/// `num_lit` of the text.
fn parse_number_at(s: &Vec<char>, pos: usize) -> (r: Option<(String, usize)>)
    requires
        pos < s@.len(),
    ensures
        r is Some ==> pos < r.unwrap().1 <= s@.len() && num_lit(
            s@,
            pos as int,
            r.unwrap().1 as int,
            r.unwrap().0@,
        ),
{
    let n = s.len();
    let mut raw: Vec<char> = Vec::new();
    let mut p = pos;
    if s[p] == '-' {
        raw.push('-');
        p += 1;
        proof {
            assert(raw@ =~= s@.subrange(pos as int, p as int));
        }
    }
    proof {
        assert(raw@ == s@.subrange(pos as int, p as int)) by {
            if pos == p {
                assert(raw@ =~= s@.subrange(pos as int, p as int));
            }
        }
    }
    // the integer part
    let digits_start = p;
    while p < n && s[p] >= '0' && s[p] <= '9'
        invariant
            pos <= digits_start <= p <= n,
            n == s@.len(),
            raw@ == s@.subrange(pos as int, p as int),
            digits_start > pos ==> s@[pos as int] == '-',
            digits_start == pos || digits_start == pos + 1,
            digits_start < p ==> crate::strutil::is_dec_digit(s@[digits_start as int]),
        decreases n - p,
    {
        raw.push(s[p]);
        proof {
            assert(raw@ =~= s@.subrange(pos as int, p + 1));
        }
        p += 1;
    }
    if p == digits_start {
        return None;
    }
    // the fraction
    if p < n && s[p] == '.' {
        raw.push('.');
        proof {
            assert(raw@ =~= s@.subrange(pos as int, p + 1));
        }
        p += 1;
        let frac_start = p;
        while p < n && s[p] >= '0' && s[p] <= '9'
            invariant
                pos < p <= n,
                n == s@.len(),
                raw@ == s@.subrange(pos as int, p as int),
            decreases n - p,
        {
            raw.push(s[p]);
            proof {
                assert(raw@ =~= s@.subrange(pos as int, p + 1));
            }
            p += 1;
        }
        if p == frac_start {
            return None;
        }
    }
    // the exponent
    if p < n && (s[p] == 'e' || s[p] == 'E') {
        raw.push(s[p]);
        proof {
            assert(raw@ =~= s@.subrange(pos as int, p + 1));
        }
        p += 1;
        if p < n && (s[p] == '+' || s[p] == '-') {
            raw.push(s[p]);
            proof {
                assert(raw@ =~= s@.subrange(pos as int, p + 1));
            }
            p += 1;
        }
        let exp_start = p;
        while p < n && s[p] >= '0' && s[p] <= '9'
            invariant
                pos < p <= n,
                n == s@.len(),
                raw@ == s@.subrange(pos as int, p as int),
            decreases n - p,
        {
            raw.push(s[p]);
            proof {
                assert(raw@ =~= s@.subrange(pos as int, p + 1));
            }
            p += 1;
        }
        if p == exp_start {
            return None;
        }
    }
    proof {
        assert(raw@[0] == s@[pos as int]);
        assert(raw@.len() > 0);
        if digits_start == pos {
            assert(crate::strutil::is_dec_digit(raw@[0]));
        } else {
            assert(raw@[0] == '-');
        }
    }
    Some((chars_to_string(&raw), p))
}

/// Parses one JSON value starting at `pos` (no leading whitespace):
/// exactly a `value_at` of the text.
fn parse_value(s: &Vec<char>, pos: usize) -> (r: Option<(JsonValue, usize)>)
    requires
        pos <= s@.len(),
    ensures
        r is Some ==> pos < r.unwrap().1 <= s@.len() && value_at(
            s@,
            pos as int,
            r.unwrap().1 as int,
            r.unwrap().0,
        ),
    decreases s@.len() - pos, 0int,
{
    let n = s.len();
    if pos >= n {
        return None;
    }
    let c = s[pos];
    if c == 'n' {
        if n - pos >= 4 && s[pos + 1] == 'u' && s[pos + 2] == 'l' && s[pos + 3] == 'l' {
            proof {
                reveal_strlit("null");
                assert(s@.subrange(pos as int, pos + 4) =~= "null"@);
            }
            Some((JsonValue::Null, pos + 4))
        } else {
            None
        }
    } else if c == 't' {
        if n - pos >= 4 && s[pos + 1] == 'r' && s[pos + 2] == 'u' && s[pos + 3] == 'e' {
            proof {
                reveal_strlit("true");
                assert(s@.subrange(pos as int, pos + 4) =~= "true"@);
            }
            Some((JsonValue::Bool(true), pos + 4))
        } else {
            None
        }
    } else if c == 'f' {
        if n - pos >= 5 && s[pos + 1] == 'a' && s[pos + 2] == 'l' && s[pos + 3] == 's' && s[pos
            + 4] == 'e' {
            proof {
                reveal_strlit("false");
                assert(s@.subrange(pos as int, pos + 5) =~= "false"@);
            }
            Some((JsonValue::Bool(false), pos + 5))
        } else {
            None
        }
    } else if c == '"' {
        match parse_string_at(s, pos) {
            Some((t, p)) => Some((JsonValue::Text(t), p)),
            None => None,
        }
    } else if c == '[' {
        parse_array_body(s, pos + 1)
    } else if c == '{' {
        parse_object_body(s, pos + 1)
    } else if c == '-' || (c >= '0' && c <= '9') {
        match parse_number_at(s, pos) {
            Some((t, p)) => Some((JsonValue::Number(t), p)),
            None => None,
        }
    } else {
        None
    }
}

/// Parses the elements of an array, starting just after the `[`. The open
/// bracket sits at `pos - 1`; the result spans it and the closing bracket,
/// exactly a `value_at` of the text.
#[verifier::rlimit(100)]
fn parse_array_body(s: &Vec<char>, pos: usize) -> (r: Option<(JsonValue, usize)>)
    requires
        1 <= pos <= s@.len(),
        s@[pos - 1] == '[',
    ensures
        r is Some ==> pos < r.unwrap().1 <= s@.len() && value_at(
            s@,
            pos - 1,
            r.unwrap().1 as int,
            r.unwrap().0,
        ),
    decreases s@.len() - pos, 1int,
{
    let n = s.len();
    let mut items: Vec<JsonValue> = Vec::new();
    let mut p = skip_ws(s, pos);
    if p < n && s[p] == ']' {
        proof {
            assert(elems_at(s@, pos as int, p as int, items@));
            assert(value_at(s@, pos - 1, p + 1, JsonValue::Array(items)));
        }
        return Some((JsonValue::Array(items), p + 1));
    }
    let ghost mut last_end: int = 0;
    let ghost mut gm: int = 0;
    while p < n
        invariant
            1 <= pos <= p <= n,
            n == s@.len(),
            s@[pos - 1] == '[',
            items@.len() == 0 ==> ws_span(s@, pos as int, p as int),
            items@.len() > 0 ==> {
                &&& elems_upto(s@, pos as int, last_end, items@)
                &&& ws_span(s@, last_end, gm)
                &&& gm < n && s@[gm] == ','
                &&& ws_span(s@, gm + 1, p as int)
            },
        decreases n - p,
    {
        let (v, q) = match parse_value(s, p) {
            Some(x) => x,
            None => {
                return None;
            },
        };
        proof {
            if items@.len() == 0 {
                lemma_elems_first(s@, pos as int, p as int, q as int, v, items@.push(v));
            } else {
                lemma_elems_extend(s@, pos as int, last_end, gm, p as int, q as int, items@, v);
            }
            last_end = q as int;
        }
        items.push(v);
        let q2 = skip_ws(s, q);
        if q2 < n && s[q2] == ',' {
            let q3 = skip_ws(s, q2 + 1);
            if q3 <= p {
                return None;
            }
            proof {
                gm = q2 as int;
            }
            p = q3;
        } else if q2 < n && s[q2] == ']' {
            proof {
                lemma_elems_close(s@, pos as int, last_end, q2 as int, items@);
                assert(value_at(s@, pos - 1, q2 + 1, JsonValue::Array(items)));
            }
            return Some((JsonValue::Array(items), q2 + 1));
        } else {
            return None;
        }
    }
    None
}

/// Parses the members of an object, starting just after the `{`. The open
/// brace sits at `pos - 1`; the result spans it and the closing brace,
/// exactly a `value_at` of the text. Members are kept in textual order.
#[verifier::rlimit(100)]
fn parse_object_body(s: &Vec<char>, pos: usize) -> (r: Option<(JsonValue, usize)>)
    requires
        1 <= pos <= s@.len(),
        s@[pos - 1] == '{',
    ensures
        r is Some ==> pos < r.unwrap().1 <= s@.len() && value_at(
            s@,
            pos - 1,
            r.unwrap().1 as int,
            r.unwrap().0,
        ),
    decreases s@.len() - pos, 1int,
{
    let n = s.len();
    let mut fields: Vec<(String, JsonValue)> = Vec::new();
    let mut p = skip_ws(s, pos);
    if p < n && s[p] == '}' {
        proof {
            assert(members_at(s@, pos as int, p as int, fields@));
            assert(value_at(s@, pos - 1, p + 1, JsonValue::Object(fields)));
        }
        return Some((JsonValue::Object(fields), p + 1));
    }
    let ghost mut last_end: int = 0;
    let ghost mut gm: int = 0;
    while p < n
        invariant
            1 <= pos <= p <= n,
            n == s@.len(),
            s@[pos - 1] == '{',
            fields@.len() == 0 ==> ws_span(s@, pos as int, p as int),
            fields@.len() > 0 ==> {
                &&& members_upto(s@, pos as int, last_end, fields@)
                &&& ws_span(s@, last_end, gm)
                &&& gm < n && s@[gm] == ','
                &&& ws_span(s@, gm + 1, p as int)
            },
        decreases n - p,
    {
        let (key, q) = match parse_string_at(s, p) {
            Some(x) => x,
            None => {
                return None;
            },
        };
        let q2 = skip_ws(s, q);
        if !(q2 < n && s[q2] == ':') {
            return None;
        }
        let q3 = skip_ws(s, q2 + 1);
        let (v, q4) = match parse_value(s, q3) {
            Some(x) => x,
            None => {
                return None;
            },
        };
        let ghost pair = (key, v);
        proof {
            if fields@.len() == 0 {
                lemma_members_first(
                    s@,
                    pos as int,
                    p as int,
                    q as int,
                    q2 as int,
                    q3 as int,
                    q4 as int,
                    pair,
                    fields@.push(pair),
                );
            } else {
                lemma_members_extend(
                    s@,
                    pos as int,
                    last_end,
                    gm,
                    p as int,
                    q as int,
                    q2 as int,
                    q3 as int,
                    q4 as int,
                    fields@,
                    pair,
                );
            }
            last_end = q4 as int;
        }
        fields.push((key, v));
        let q5 = skip_ws(s, q4);
        if q5 < n && s[q5] == ',' {
            let q6 = skip_ws(s, q5 + 1);
            if q6 <= p {
                return None;
            }
            proof {
                gm = q5 as int;
            }
            p = q6;
        } else if q5 < n && s[q5] == '}' {
            proof {
                lemma_members_close(s@, pos as int, last_end, q5 as int, fields@);
                assert(value_at(s@, pos - 1, q5 + 1, JsonValue::Object(fields)));
            }
            return Some((JsonValue::Object(fields), q5 + 1));
        } else {
            return None;
        }
    }
    None
}

/// Parses a whole JSON document: one value, possibly surrounded by
/// whitespace, covering the entire text. A returned value is a parse of the
/// text: `parses_to` ties the two. (That a `None` means no parse exists is
/// not claimed.)
pub fn parse_json(text: &Vec<char>) -> (r: Option<JsonValue>)
    ensures
        r is Some ==> parses_to(text@, r.unwrap()),
{
    let p = skip_ws(text, 0);
    match parse_value(text, p) {
        Some((v, q)) => {
            let q2 = skip_ws(text, q);
            if q2 == text.len() {
                proof {
                    assert(posw2(p as int, q as int) && ws_span(text@, 0, p as int) && value_at(
                        text@,
                        p as int,
                        q as int,
                        v,
                    ) && ws_span(text@, q as int, text@.len() as int));
                }
                Some(v)
            } else {
                None
            }
        },
        None => None,
    }
}

} // verus!
