//! The response-modifier engine: rules that rewrite an upstream response —
//! replacing body text, adding or removing headers, overriding the status,
//! injecting a delay, or setting a value at a dotted path in a JSON body.
use vstd::prelude::*;

use crate::headers::hlookup;
use crate::ids::now_millis;
use crate::json::{
    json_set_rel, json_text, json_to_string, parse_json, same_json, same_json_fields,
    same_json_items, set_json_path, JsonValue,
};
use crate::matcher::{
    predicate_holds, predicate_matches, regex_ok, view_method, MatchType,
};
use crate::store::{has_key, lookup, RuleStore, StoreEntry};
use crate::strutil::{chars_replace_all, chars_split, chars_vec, replace_all};
use vstd::string::StrSliceExecFns;

verus! {

/// One transformation of a response.
pub enum Modification {
    ReplaceBody { pattern: String, replacement: String, use_regex: bool },
    AddHeader { name: String, value: String },
    RemoveHeader { name: String },
    ChangeStatus { status: u16 },
    InjectDelay { delay_ms: u64 },
    ModifyJson { path: String, value: JsonValue },
}

/// The predicate of a modifier rule; `status_codes`, when set, restricts the
/// rule to responses with one of those statuses.
pub struct RequestMatch {
    pub method: Option<String>,
    pub url_pattern: String,
    pub url_match_type: MatchType,
    pub status_codes: Option<Vec<u16>>,
}

/// A stored modifier rule.
pub struct ModifierRule {
    pub id: String,
    pub name: String,
    pub enabled: bool,
    pub priority: i32,
    pub match_request: RequestMatch,
    pub modifications: Vec<Modification>,
    pub created_at: u64,
}

/// The fields a caller provides to create a modifier rule.
pub struct CreateModifierRule {
    pub name: String,
    pub enabled: bool,
    pub priority: i32,
    pub match_request: RequestMatch,
    pub modifications: Vec<Modification>,
}

/// The fields a caller provides to replace a modifier rule.
pub struct UpdateModifierRule {
    pub id: String,
    pub name: String,
    pub enabled: bool,
    pub priority: i32,
    pub match_request: RequestMatch,
    pub modifications: Vec<Modification>,
}

/// Match predicates that agree (code lists compared by contents).
pub open spec fn same_req_match(a: RequestMatch, b: RequestMatch) -> bool {
    &&& a.method == b.method
    &&& a.url_pattern == b.url_pattern
    &&& a.url_match_type == b.url_match_type
    &&& match (a.status_codes, b.status_codes) {
        (Some(x), Some(y)) => x@ == y@,
        (None, None) => true,
        _ => false,
    }
}

/// Modifications that agree: equal except that JSON payloads are compared
/// structurally.
pub open spec fn same_mod(a: Modification, b: Modification) -> bool {
    match (a, b) {
        (
            Modification::ModifyJson { path: pa, value: va },
            Modification::ModifyJson { path: pb, value: vb },
        ) => pa == pb && same_json(va, vb),
        _ => a == b,
    }
}

/// Modification lists that agree element for element.
pub open spec fn same_mods(a: Seq<Modification>, b: Seq<Modification>) -> bool {
    a.len() == b.len() && forall|i: int| 0 <= i < a.len() ==> same_mod(#[trigger] a[i], b[i])
}

/// Modifier rules that agree field for field.
pub open spec fn same_modifier(a: ModifierRule, b: ModifierRule) -> bool {
    &&& a.id == b.id
    &&& a.name == b.name
    &&& a.enabled == b.enabled
    &&& a.priority == b.priority
    &&& same_req_match(a.match_request, b.match_request)
    &&& same_mods(a.modifications@, b.modifications@)
    &&& a.created_at == b.created_at
}

/// Some rule in `s` agrees with `m` field for field.
pub open spec fn some_same_modifier(s: Seq<ModifierRule>, m: ModifierRule) -> bool {
    exists|k: int| 0 <= k < s.len() && same_modifier(m, #[trigger] s[k])
}

/// Some stored rule is enabled, matches the request, and agrees with `m`.
pub open spec fn corresponds_to_match(
    s: Seq<ModifierRule>,
    m: ModifierRule,
    method: Seq<char>,
    url: Seq<char>,
    status: Option<u16>,
) -> bool {
    exists|k: int|
        0 <= k < s.len() && (#[trigger] s[k]).enabled && modifier_matches(
            s[k],
            method,
            url,
            status,
        ) && same_modifier(m, s[k])
}

/// The status part of a predicate: a rule with a code list demands, when a
/// status is given, that the status is in the list.
pub open spec fn status_matches(codes: Option<Vec<u16>>, status: Option<u16>) -> bool {
    match (codes, status) {
        (Some(cs), Some(st)) => exists|i: int| 0 <= i < cs@.len() && cs@[i] == st,
        _ => true,
    }
}

/// Whether a rule's predicate accepts the request and status.
pub open spec fn modifier_matches(
    rule: ModifierRule,
    method: Seq<char>,
    url: Seq<char>,
    status: Option<u16>,
) -> bool {
    &&& predicate_holds(
        view_method(&rule.match_request.method),
        rule.match_request.url_match_type,
        rule.match_request.url_pattern@,
        method,
        url,
    )
    &&& status_matches(rule.match_request.status_codes, status)
}

impl Modification {
    pub fn clone_mod(&self) -> (r: Self)
        ensures
            same_mod(r, *self),
    {
        match self {
            Modification::ReplaceBody { pattern, replacement, use_regex } => {
                Modification::ReplaceBody {
                    pattern: pattern.clone(),
                    replacement: replacement.clone(),
                    use_regex: *use_regex,
                }
            },
            Modification::AddHeader { name, value } => {
                Modification::AddHeader { name: name.clone(), value: value.clone() }
            },
            Modification::RemoveHeader { name } => {
                Modification::RemoveHeader { name: name.clone() }
            },
            Modification::ChangeStatus { status } => {
                Modification::ChangeStatus { status: *status }
            },
            Modification::InjectDelay { delay_ms } => {
                Modification::InjectDelay { delay_ms: *delay_ms }
            },
            Modification::ModifyJson { path, value } => {
                Modification::ModifyJson { path: path.clone(), value: clone_json(value) }
            },
        }
    }
}

/// A copy of a JSON value, the same JSON as the original.
pub fn clone_json(v: &JsonValue) -> (r: JsonValue)
    ensures
        same_json(r, *v),
    decreases *v,
{
    match v {
        JsonValue::Null => JsonValue::Null,
        JsonValue::Bool(b) => JsonValue::Bool(*b),
        JsonValue::Number(n) => JsonValue::Number(n.clone()),
        JsonValue::Text(t) => JsonValue::Text(t.clone()),
        JsonValue::Array(items) => JsonValue::Array(clone_json_items(items)),
        JsonValue::Object(fields) => JsonValue::Object(clone_json_fields(fields)),
    }
}

fn clone_json_items(items: &Vec<JsonValue>) -> (r: Vec<JsonValue>)
    ensures
        same_json_items(r@, items@),
    decreases *items,
{
    let n = items.len();
    let mut out: Vec<JsonValue> = Vec::new();
    let mut i: usize = 0;
    while i < n
        invariant
            i <= n,
            n == items@.len(),
            out@.len() == i,
            forall|q: int| 0 <= q < i ==> same_json(#[trigger] out@[q], items@[q]),
        decreases n - i,
    {
        proof {
            assert(decreases_to!(*items => items@[i as int]));
        }
        out.push(clone_json(&items[i]));
        i += 1;
    }
    proof {
        lemma_same_json_items_pointwise(out@, items@);
    }
    out
}

fn clone_json_fields(fields: &Vec<(String, JsonValue)>) -> (r: Vec<(String, JsonValue)>)
    ensures
        same_json_fields(r@, fields@),
    decreases *fields,
{
    let n = fields.len();
    let mut out: Vec<(String, JsonValue)> = Vec::new();
    let mut i: usize = 0;
    while i < n
        invariant
            i <= n,
            n == fields@.len(),
            out@.len() == i,
            forall|q: int|
                0 <= q < i ==> (#[trigger] out@[q]).0 == fields@[q].0 && same_json(
                    out@[q].1,
                    fields@[q].1,
                ),
        decreases n - i,
    {
        proof {
            assert(decreases_to!(*fields => fields@[i as int]));
            assert(decreases_to!(fields@[i as int] => fields@[i as int].1));
        }
        let k = fields[i].0.clone();
        let val = clone_json(&fields[i].1);
        out.push((k, val));
        i += 1;
    }
    proof {
        lemma_same_json_fields_pointwise(out@, fields@);
    }
    out
}

/// Pointwise sameness of elements gives sameness of the lists.
proof fn lemma_same_json_items_pointwise(x: Seq<JsonValue>, y: Seq<JsonValue>)
    requires
        x.len() == y.len(),
        forall|q: int| 0 <= q < x.len() ==> same_json(#[trigger] x[q], y[q]),
    ensures
        same_json_items(x, y),
    decreases x.len(),
{
    if x.len() > 0 {
        assert(x.drop_first().len() == y.drop_first().len());
        assert(forall|q: int|
            0 <= q < x.drop_first().len() ==> same_json(
                #[trigger] x.drop_first()[q],
                y.drop_first()[q],
            ));
        lemma_same_json_items_pointwise(x.drop_first(), y.drop_first());
    }
}

proof fn lemma_same_json_fields_pointwise(x: Seq<(String, JsonValue)>, y: Seq<(String, JsonValue)>)
    requires
        x.len() == y.len(),
        forall|q: int|
            0 <= q < x.len() ==> (#[trigger] x[q]).0 == y[q].0 && same_json(x[q].1, y[q].1),
    ensures
        same_json_fields(x, y),
    decreases x.len(),
{
    if x.len() > 0 {
        assert(forall|q: int|
            0 <= q < x.drop_first().len() ==> (#[trigger] x.drop_first()[q]).0
                == y.drop_first()[q].0 && same_json(x.drop_first()[q].1, y.drop_first()[q].1));
        lemma_same_json_fields_pointwise(x.drop_first(), y.drop_first());
    }
}

/// A copy of a modification list, the same list by contents.
pub fn clone_mods(v: &Vec<Modification>) -> (r: Vec<Modification>)
    ensures
        same_mods(r@, v@),
{
    let n = v.len();
    let mut out: Vec<Modification> = Vec::new();
    let mut i: usize = 0;
    while i < n
        invariant
            i <= n,
            n == v@.len(),
            out@.len() == i,
            forall|q: int| 0 <= q < i ==> same_mod(#[trigger] out@[q], v@[q]),
        decreases n - i,
    {
        out.push(v[i].clone_mod());
        i += 1;
    }
    out
}

impl RequestMatch {
    pub fn clone_match(&self) -> (r: Self)
        ensures
            same_req_match(r, *self),
    {
        RequestMatch {
            method: self.method.clone(),
            url_pattern: self.url_pattern.clone(),
            url_match_type: self.url_match_type,
            status_codes: match &self.status_codes {
                Some(cs) => Some(clone_codes(cs)),
                None => None,
            },
        }
    }
}

fn clone_codes(v: &Vec<u16>) -> (r: Vec<u16>)
    ensures
        r@ == v@,
{
    let n = v.len();
    let mut out: Vec<u16> = Vec::new();
    let mut i: usize = 0;
    while i < n
        invariant
            i <= n,
            n == v@.len(),
            out@ == v@.subrange(0, i as int),
        decreases n - i,
    {
        out.push(v[i]);
        proof {
            assert(out@ =~= v@.subrange(0, i + 1));
        }
        i += 1;
    }
    proof {
        assert(v@.subrange(0, n as int) =~= v@);
    }
    out
}

impl ModifierRule {
    pub fn clone_rule(&self) -> (r: Self)
        ensures
            same_modifier(r, *self),
    {
        ModifierRule {
            id: self.id.clone(),
            name: self.name.clone(),
            enabled: self.enabled,
            priority: self.priority,
            match_request: self.match_request.clone_match(),
            modifications: clone_mods(&self.modifications),
            created_at: self.created_at,
        }
    }

    /// Evaluates this rule's predicate against a request and status.
    pub fn matches(&self, method: &str, url: &str, status: Option<u16>) -> (r: bool)
        ensures
            r == modifier_matches(*self, method@, url@, status),
    {
        let status_ok: bool = match (&self.match_request.status_codes, status) {
            (Some(cs), Some(st)) => {
                let n = cs.len();
                let mut i: usize = 0;
                let mut hit = false;
                while i < n && !hit
                    invariant
                        i <= n,
                        n == cs@.len(),
                        hit ==> i < n && cs@[i as int] == st,
                        !hit ==> forall|q: int| 0 <= q < i ==> cs@[q] != st,
                    decreases n - i, (if hit { 0int } else { 1int }),
                {
                    if cs[i] == st {
                        hit = true;
                    } else {
                        i += 1;
                    }
                }
                hit
            },
            _ => true,
        };
        if !status_ok {
            return false;
        }
        predicate_matches(
            &self.match_request.method,
            self.match_request.url_match_type,
            self.match_request.url_pattern.as_str(),
            method,
            url,
        )
    }
}

impl StoreEntry for ModifierRule {
    open spec fn key(&self) -> Seq<char> {
        self.id@
    }

    open spec fn prio(&self) -> int {
        self.priority as int
    }

    open spec fn active(&self) -> bool {
        self.enabled
    }

    open spec fn with_active(&self, b: bool) -> Self {
        ModifierRule { enabled: b, ..*self }
    }

    proof fn with_active_props(&self, b: bool) {
    }

    fn key_ref(&self) -> &String {
        &self.id
    }

    fn prio_val(&self) -> i32 {
        self.priority
    }

    fn enabled_val(&self) -> bool {
        self.enabled
    }

    fn set_active(&mut self, b: bool) {
        self.enabled = b;
    }
}


/// What `regex::Regex::replace_all` returns for a compiled pattern on a text
/// with a replacement: a function of the three strings alone.
pub uninterp spec fn regex_replace(pattern: Seq<char>, text: Seq<char>, rep: Seq<char>) -> Seq<
    char,
>;

/// Relies on `regex::Regex::new` and `regex::Regex::replace_all`: `Some`
/// exactly when the pattern compiles, carrying the replaced text, which
/// depends on the three strings alone.
#[verifier::external_body]
fn regex_replace_all(pattern: &str, text: &str, rep: &str) -> (r: Option<String>)
    ensures
        r is Some <==> regex_ok(pattern@),
        r is Some ==> r.unwrap()@ == regex_replace(pattern@, text@, rep@),
{
    match regex::Regex::new(pattern) {
        Ok(re) => Some(re.replace_all(text, rep).into_owned()),
        Err(_) => None,
    }
}

/// Rewrites a body by textual substitution, as the `replace_body`
/// modification does. A body that is not valid UTF-8, and a regex pattern
/// that does not compile, leave the body unchanged. A literal substitution
/// replaces every occurrence; an empty literal pattern replaces nothing.
pub fn replace_body_bytes(body: &Vec<u8>, pattern: &str, replacement: &str, use_regex: bool) -> (r:
    Vec<u8>)
    ensures
        !vstd::utf8::valid_utf8(body@) ==> r@ == body@,
        vstd::utf8::valid_utf8(body@) && !use_regex ==> r@ == vstd::utf8::encode_utf8(
            replace_all(vstd::utf8::decode_utf8(body@), pattern@, replacement@),
        ),
        vstd::utf8::valid_utf8(body@) && use_regex && regex_ok(pattern@) ==> r@
            == vstd::utf8::encode_utf8(
            regex_replace(pattern@, vstd::utf8::decode_utf8(body@), replacement@),
        ),
        vstd::utf8::valid_utf8(body@) && use_regex && !regex_ok(pattern@) ==> r@ == body@,
{
    let text = match crate::strutil::utf8_to_string(body) {
        Some(t) => t,
        None => {
            return crate::strutil::bytes_clone(body);
        },
    };
    if use_regex {
        match regex_replace_all(pattern, text.as_str(), replacement) {
            Some(replaced) => replaced.as_str().as_bytes_vec(),
            None => crate::strutil::bytes_clone(body),
        }
    } else {
        let tv = chars_vec(text.as_str());
        let pv = chars_vec(pattern);
        let rv = chars_vec(replacement);
        let replaced = chars_replace_all(&tv, &pv, &rv);
        let out = crate::strutil::chars_to_string(&replaced);
        out.as_str().as_bytes_vec()
    }
}

/// Rewrites a JSON body by setting a dotted path, as the `modify_json`
/// modification does. A body that is not valid UTF-8, or that this parser
/// does not accept, is returned unchanged; otherwise the result serializes
/// the dotted-path update of a value the body itself parses to, for a copy
/// of `value`. The unchanged disjunct below is as narrow as the parser's
/// contract allows: that the parser accepts every text the grammar relation
/// admits is not claimed, so "unchanged" cannot be pinned to "no parse
/// exists".
pub fn modify_json_body(body: &Vec<u8>, path: &str, value: &JsonValue) -> (r: Vec<u8>)
    ensures
        !vstd::utf8::valid_utf8(body@) ==> r@ == body@,
        r@ == body@ || exists|parsed: JsonValue, vv: JsonValue, w: JsonValue, segs: Seq<String>|
            {
                &&& vstd::utf8::valid_utf8(body@)
                &&& crate::json::parses_to(vstd::utf8::decode_utf8(body@), parsed)
                &&& segs.len() == crate::strutil::split_chars(path@, '.').len()
                &&& forall|i: int|
                    0 <= i < segs.len() ==> (#[trigger] segs[i])@ == crate::strutil::split_chars(
                        path@,
                        '.',
                    )[i]
                &&& same_json(vv, *value)
                &&& json_set_rel(parsed, segs, vv, w)
                &&& r@ == vstd::utf8::encode_utf8(json_text(w))
            },
{
    let text = match crate::strutil::utf8_to_string(body) {
        Some(t) => t,
        None => {
            return crate::strutil::bytes_clone(body);
        },
    };
    let tv = chars_vec(text.as_str());
    let parsed = match parse_json(&tv) {
        Some(v) => v,
        None => {
            return crate::strutil::bytes_clone(body);
        },
    };
    let pv = chars_vec(path);
    let segs = chars_split(&pv, '.');
    proof {
        crate::strutil::lemma_split_nonempty(path@, '.');
        assert(segs@.len() >= 1);
    }
    let vv = clone_json(value);
    let ghost parsed0 = parsed;
    let ghost vv0 = vv;
    let updated = set_json_path(parsed, &segs, 0, vv);
    proof {
        assert(segs@.skip(0) =~= segs@);
    }
    let out = json_to_string(&updated);
    out.as_str().as_bytes_vec()
}

/// The status after a list of modifications: the last `change_status` wins.
pub open spec fn mods_status(mods: Seq<Modification>, st: u16) -> u16
    decreases mods.len(),
{
    if mods.len() == 0 {
        st
    } else {
        match mods.last() {
            Modification::ChangeStatus { status } => status,
            _ => mods_status(mods.drop_last(), st),
        }
    }
}

/// The total delay a list of modifications injects, saturating.
pub open spec fn mods_delay(mods: Seq<Modification>) -> u64
    decreases mods.len(),
{
    if mods.len() == 0 {
        0
    } else {
        match mods.last() {
            Modification::InjectDelay { delay_ms } => crate::latency::sat_add(
                mods_delay(mods.drop_last()),
                delay_ms,
            ),
            _ => mods_delay(mods.drop_last()),
        }
    }
}

/// What a header reads as after a list of modifications: the last add or
/// remove of that name wins; other modifications do not touch headers.
pub open spec fn mods_header_val(
    mods: Seq<Modification>,
    h0: Seq<(String, String)>,
    x: Seq<char>,
) -> Option<Seq<char>>
    decreases mods.len(),
{
    if mods.len() == 0 {
        hlookup(h0, x)
    } else {
        match mods.last() {
            Modification::AddHeader { name, value } => if name@ == x {
                Some(value@)
            } else {
                mods_header_val(mods.drop_last(), h0, x)
            },
            Modification::RemoveHeader { name } => if name@ == x {
                None
            } else {
                mods_header_val(mods.drop_last(), h0, x)
            },
            _ => mods_header_val(mods.drop_last(), h0, x),
        }
    }
}

/// Whether any modification in the list rewrites the body.
pub open spec fn mods_touch_body(mods: Seq<Modification>) -> bool {
    exists|i: int|
        0 <= i < mods.len() && ((#[trigger] mods[i]) is ReplaceBody || mods[i] is ModifyJson)
}

/// All modifications of a rule list, in rule order.
pub open spec fn concat_mods(rules: Seq<ModifierRule>) -> Seq<Modification>
    decreases rules.len(),
{
    if rules.len() == 0 {
        Seq::empty()
    } else {
        concat_mods(rules.drop_last()) + rules.last().modifications@
    }
}

/// What one modification does to the body. The rewriting steps are exact:
/// a literal replacement substitutes every occurrence; a regex replacement
/// goes through the named `regex_replace`; a body that is not valid UTF-8,
/// or a pattern that does not compile, leaves the body unchanged. A JSON
/// step either leaves the body unchanged (it does not parse) or serializes
/// a dotted-path update of some parsed value. Every other modification
/// leaves the body alone.
pub open spec fn mod_body_rel(m: Modification, b0: Seq<u8>, b1: Seq<u8>) -> bool {
    match m {
        Modification::ReplaceBody { pattern, replacement, use_regex } => {
            if !vstd::utf8::valid_utf8(b0) {
                b1 == b0
            } else if use_regex {
                if regex_ok(pattern@) {
                    b1 == vstd::utf8::encode_utf8(
                        regex_replace(pattern@, vstd::utf8::decode_utf8(b0), replacement@),
                    )
                } else {
                    b1 == b0
                }
            } else {
                b1 == vstd::utf8::encode_utf8(
                    replace_all(vstd::utf8::decode_utf8(b0), pattern@, replacement@),
                )
            }
        },
        Modification::ModifyJson { path, value } => {
            &&& (!vstd::utf8::valid_utf8(b0) ==> b1 == b0)
            &&& (b1 == b0 || exists|parsed: JsonValue, vv: JsonValue, w: JsonValue, segs: Seq<
                String,
            >|
                {
                    &&& vstd::utf8::valid_utf8(b0)
                    &&& crate::json::parses_to(vstd::utf8::decode_utf8(b0), parsed)
                    &&& segs.len() == crate::strutil::split_chars(path@, '.').len()
                    &&& forall|i: int|
                        0 <= i < segs.len() ==> (#[trigger] segs[i])@
                            == crate::strutil::split_chars(path@, '.')[i]
                    &&& same_json(vv, value)
                    &&& json_set_rel(parsed, segs, vv, w)
                    &&& b1 == vstd::utf8::encode_utf8(json_text(w))
                })
        },
        _ => b1 == b0,
    }
}

/// What a list of modifications does to the body: some trace of
/// intermediate bodies starts at `b0`, ends at `b1`, and each step follows
/// `mod_body_rel`.
pub open spec fn body_chain(
    mods: Seq<Modification>,
    b0: Seq<u8>,
    b1: Seq<u8>,
    bt: Seq<Seq<u8>>,
) -> bool {
    &&& bt.len() == mods.len() + 1
    &&& bt[0] == b0
    &&& bt[mods.len() as int] == b1
    &&& forall|i: int| 0 <= i < mods.len() ==> mod_body_rel(#[trigger] mods[i], bt[i], bt[i + 1])
}

/// The whole effect of one modifier pass: `sel` is the selection of rules
/// that ran — every one an enabled stored rule matching the request, every
/// matching stored rule among them, in priority order — and the outputs are
/// the folds of their concatenated modifications: the last status override,
/// the summed delay, the header edits, and a body only they may have touched.
pub open spec fn apply_outcome(
    rules: Seq<ModifierRule>,
    sel: Seq<ModifierRule>,
    method: Seq<char>,
    url: Seq<char>,
    status: u16,
    out_status: u16,
    out_delay: u64,
    h0: Seq<(String, String)>,
    h1: Seq<(String, String)>,
    b0: Seq<u8>,
    b1: Seq<u8>,
) -> bool {
    &&& forall|a: int, b: int|
        0 <= a < b < sel.len() ==> (#[trigger] sel[a]).priority >= (#[trigger] sel[b]).priority
    &&& forall|a: int|
        0 <= a < sel.len() ==> corresponds_to_match(rules, #[trigger] sel[a], method, url, Some(status))
    &&& forall|k: int|
        0 <= k < rules.len() && (#[trigger] rules[k]).enabled && modifier_matches(
            rules[k],
            method,
            url,
            Some(status),
        ) ==> exists|a: int| 0 <= a < sel.len() && same_modifier(rules[k], #[trigger] sel[a])
    &&& out_status == mods_status(concat_mods(sel), status)
    &&& out_delay == mods_delay(concat_mods(sel))
    &&& forall|x: Seq<char>|
        #[trigger] hlookup(h1, x) == mods_header_val(concat_mods(sel), h0, x)
    &&& exists|bt: Seq<Seq<u8>>| #[trigger] body_chain(concat_mods(sel), b0, b1, bt)
    &&& (!mods_touch_body(concat_mods(sel)) ==> b1 == b0)
}

/// How many stored rules are enabled and match the request.
pub open spec fn count_matching(
    s: Seq<ModifierRule>,
    method: Seq<char>,
    url: Seq<char>,
    status: Option<u16>,
) -> int
    decreases s.len(),
{
    if s.len() == 0 {
        0
    } else {
        count_matching(s.drop_last(), method, url, status) + (if s.last().enabled
            && modifier_matches(s.last(), method, url, status) {
            1int
        } else {
            0int
        })
    }
}

/// The set of modifier rules.
pub struct ResponseModifier {
    store: RuleStore<ModifierRule>,
}

impl ResponseModifier {
    /// The rules currently held, in insertion order.
    pub closed spec fn rules(&self) -> Seq<ModifierRule> {
        self.store.rules()
    }

    /// The rules' ids are pairwise distinct.
    pub open spec fn wf(&self) -> bool {
        crate::store::keys_unique(self.rules())
    }

    pub fn new() -> (r: Self)
        ensures
            r.wf(),
            r.rules() == Seq::<ModifierRule>::empty(),
    {
        ResponseModifier { store: RuleStore::new() }
    }

    /// Creates a rule from the given fields under a fresh id.
    pub fn add_rule(&mut self, create_rule: CreateModifierRule) -> (id: String)
        requires
            old(self).wf(),
        ensures
            final(self).wf(),
            ({
                let e = lookup(final(self).rules(), id@);
                &&& e is Some
                &&& e.unwrap().id@ == id@
                &&& e.unwrap().name == create_rule.name
                &&& e.unwrap().enabled == create_rule.enabled
                &&& e.unwrap().priority == create_rule.priority
                &&& e.unwrap().match_request == create_rule.match_request
                &&& e.unwrap().modifications == create_rule.modifications
            }),
            forall|k: Seq<char>|
                k != id@ ==> #[trigger] lookup(final(self).rules(), k) == lookup(
                    old(self).rules(),
                    k,
                ),
            !has_key(old(self).rules(), id@),
            final(self).rules().len() == old(self).rules().len() + 1,
    {
        let id = self.store.fresh_key();
        let rule = ModifierRule {
            id: id.clone(),
            name: create_rule.name,
            enabled: create_rule.enabled,
            priority: create_rule.priority,
            match_request: create_rule.match_request,
            modifications: create_rule.modifications,
            created_at: now_millis(),
        };
        self.store.upsert(rule);
        id
    }

    /// Replaces the rule with the given id, keeping its creation stamp.
    pub fn update_rule(&mut self, update_rule: UpdateModifierRule) -> (r: bool)
        requires
            old(self).wf(),
        ensures
            final(self).wf(),
            r == has_key(old(self).rules(), update_rule.id@),
            r ==> ({
                let e = lookup(final(self).rules(), update_rule.id@);
                &&& e is Some
                &&& e.unwrap().id == update_rule.id
                &&& e.unwrap().name == update_rule.name
                &&& e.unwrap().enabled == update_rule.enabled
                &&& e.unwrap().priority == update_rule.priority
                &&& e.unwrap().match_request == update_rule.match_request
                &&& e.unwrap().modifications == update_rule.modifications
                &&& e.unwrap().created_at == lookup(
                    old(self).rules(),
                    update_rule.id@,
                ).unwrap().created_at
            }),
            !r ==> final(self).rules() == old(self).rules(),
            forall|k: Seq<char>|
                k != update_rule.id@ ==> #[trigger] lookup(final(self).rules(), k) == lookup(
                    old(self).rules(),
                    k,
                ),
            final(self).rules().len() == old(self).rules().len(),
    {
        let created: Option<u64> = match self.store.get(update_rule.id.as_str()) {
            Some(e) => Some(e.created_at),
            None => None,
        };
        match created {
            Some(created_at) => {
                let rule = ModifierRule {
                    id: update_rule.id,
                    name: update_rule.name,
                    enabled: update_rule.enabled,
                    priority: update_rule.priority,
                    match_request: update_rule.match_request,
                    modifications: update_rule.modifications,
                    created_at,
                };
                self.store.upsert(rule);
                true
            },
            None => false,
        }
    }

    /// Deletes the rule with this id.
    pub fn delete_rule(&mut self, id: &str) -> (r: bool)
        requires
            old(self).wf(),
        ensures
            final(self).wf(),
            r == has_key(old(self).rules(), id@),
            lookup(final(self).rules(), id@) == None::<ModifierRule>,
            forall|k: Seq<char>|
                k != id@ ==> #[trigger] lookup(final(self).rules(), k) == lookup(
                    old(self).rules(),
                    k,
                ),
            final(self).rules().len() == old(self).rules().len() - (if has_key(
                old(self).rules(),
                id@,
            ) {
                1int
            } else {
                0int
            }),
    {
        self.store.remove(id)
    }

    /// A copy of the rule with this id.
    pub fn get_rule(&self, id: &str) -> (r: Option<ModifierRule>)
        requires
            self.wf(),
        ensures
            match r {
                Some(m) => lookup(self.rules(), id@) is Some && same_modifier(
                    m,
                    lookup(self.rules(), id@).unwrap(),
                ),
                None => lookup(self.rules(), id@) is None,
            },
    {
        match self.store.get(id) {
            Some(e) => Some(e.clone_rule()),
            None => None,
        }
    }

    /// Copies of all rules, sorted by priority descending.
    pub fn get_all_rules(&self) -> (r: Vec<ModifierRule>)
        ensures
            r@.len() == self.rules().len(),
            forall|i: int, j: int| 0 <= i < j < r@.len() ==> r@[i].priority >= r@[j].priority,
            forall|i: int|
                0 <= i < r@.len() ==> some_same_modifier(self.rules(), #[trigger] r@[i]),
            forall|k: int|
                0 <= k < self.rules().len() ==> some_same_modifier(
                    r@,
                    #[trigger] self.rules()[k],
                ),
    {
        let refs = self.store.list_sorted();
        let n = refs.len();
        let mut r: Vec<ModifierRule> = Vec::new();
        let mut i: usize = 0;
        while i < n
            invariant
                i <= n,
                n == refs@.len(),
                refs@.len() == self.rules().len(),
                r@.len() == i,
                forall|a: int, b: int|
                    0 <= a < b < refs@.len() ==> refs@[a].prio() >= refs@[b].prio(),
                forall|a: int|
                    0 <= a < refs@.len() ==> self.rules().contains(#[trigger] *refs@[a]),
                forall|a: int|
                    0 <= a < self.rules().len() ==> crate::store::appears(
                        refs@,
                        #[trigger] self.rules()[a],
                    ),
                forall|a: int| 0 <= a < i ==> same_modifier(#[trigger] r@[a], *refs@[a]),
            decreases n - i,
        {
            r.push(refs[i].clone_rule());
            i += 1;
        }
        proof {
            assert forall|a: int, b: int| 0 <= a < b < r@.len() implies r@[a].priority
                >= r@[b].priority by {
                assert(same_modifier(r@[a], *refs@[a]));
                assert(same_modifier(r@[b], *refs@[b]));
            }
            assert forall|a: int| 0 <= a < r@.len() implies some_same_modifier(
                self.rules(),
                #[trigger] r@[a],
            ) by {
                assert(self.rules().contains(*refs@[a]));
                let k = choose|k: int|
                    0 <= k < self.rules().len() && #[trigger] self.rules()[k] == *refs@[a];
                assert(same_modifier(r@[a], self.rules()[k]));
            }
            assert forall|k: int| 0 <= k < self.rules().len() implies some_same_modifier(
                r@,
                #[trigger] self.rules()[k],
            ) by {
                assert(crate::store::appears(refs@, self.rules()[k]));
                let w = choose|w: int|
                    0 <= w < refs@.len() && *(#[trigger] refs@[w]) == self.rules()[k];
                lemma_same_modifier_sym(r@[w], *refs@[w]);
                assert(same_modifier(self.rules()[k], r@[w]));
            }
        }
        r
    }

    /// Flips the enabled flag of the rule with this id.
    pub fn toggle_rule(&mut self, id: &str) -> (r: bool)
        requires
            old(self).wf(),
        ensures
            final(self).wf(),
            r == has_key(old(self).rules(), id@),
            r ==> ({
                let e = lookup(old(self).rules(), id@).unwrap();
                lookup(final(self).rules(), id@) == Some(e.with_active(!e.active()))
            }),
            !r ==> final(self).rules() == old(self).rules(),
            forall|k: Seq<char>|
                k != id@ ==> #[trigger] lookup(final(self).rules(), k) == lookup(
                    old(self).rules(),
                    k,
                ),
            final(self).rules().len() == old(self).rules().len(),
    {
        self.store.toggle(id)
    }

    /// Removes every rule.
    pub fn clear_all(&mut self)
        ensures
            final(self).wf(),
            final(self).rules() == Seq::<ModifierRule>::empty(),
    {
        self.store.clear();
    }

    /// Copies of the enabled rules whose predicates accept the request,
    /// sorted by priority descending — one copy per matching stored rule.
    #[verifier::rlimit(50)]
    pub fn find_matching_rules(&self, method: &str, url: &str, status: Option<u16>) -> (r: Vec<
        ModifierRule,
    >)
        ensures
            r@.len() == count_matching(self.rules(), method@, url@, status),
            forall|a: int, b: int| 0 <= a < b < r@.len() ==> r@[a].priority >= r@[b].priority,
            forall|a: int|
                0 <= a < r@.len() ==> corresponds_to_match(
                    self.rules(),
                    #[trigger] r@[a],
                    method@,
                    url@,
                    status,
                ),
            forall|k: int|
                0 <= k < self.rules().len() && (#[trigger] self.rules()[k]).enabled
                    && modifier_matches(self.rules()[k], method@, url@, status) ==> exists|a: int|
                    0 <= a < r@.len() && same_modifier(self.rules()[k], #[trigger] r@[a]),
    {
        let n = self.store.len();
        let mut r: Vec<ModifierRule> = Vec::new();
        let mut i: usize = 0;
        proof {
            assert(self.rules().subrange(0, 0) =~= Seq::<ModifierRule>::empty());
        }
        while i < n
            invariant
                i <= n,
                n == self.rules().len(),
                r@.len() == count_matching(
                    self.rules().subrange(0, i as int),
                    method@,
                    url@,
                    status,
                ),
                forall|a: int, b: int| 0 <= a < b < r@.len() ==> r@[a].priority >= r@[b].priority,
                forall|a: int|
                    0 <= a < r@.len() ==> corresponds_to_match(
                        self.rules(),
                        #[trigger] r@[a],
                        method@,
                        url@,
                        status,
                    ),
                forall|j: int|
                    0 <= j < i && (#[trigger] self.rules()[j]).enabled && modifier_matches(
                        self.rules()[j],
                        method@,
                        url@,
                        status,
                    ) ==> exists|a: int|
                        0 <= a < r@.len() && same_modifier(self.rules()[j], #[trigger] r@[a]),
            decreases n - i,
        {
            proof {
                assert(self.rules().subrange(0, i + 1).drop_last() =~= self.rules().subrange(
                    0,
                    i as int,
                ));
                assert(self.rules().subrange(0, i + 1).last() == self.rules()[i as int]);
            }
            let e = self.store.entry_at(i);
            if e.enabled && e.matches(method, url, status) {
                let c = e.clone_rule();
                let p = c.priority;
                let ghost before = r@;
                let mut pos: usize = 0;
                while pos < r.len() && r[pos].priority >= p
                    invariant
                        pos <= r@.len(),
                        r@ == before,
                        forall|a: int| 0 <= a < pos ==> (#[trigger] r@[a]).priority >= p,
                    decreases r@.len() - pos,
                {
                    pos += 1;
                }
                proof {
                    if (pos as int) < before.len() {
                        assert(before[pos as int].priority < p);
                    }
                }
                r.insert(pos, c);
                proof {
                    let cur = r@;
                    assert(cur =~= before.insert(pos as int, c));
                    assert(c.priority == self.rules()[i as int].priority);
                    assert forall|a: int, b: int| 0 <= a < b < cur.len() implies cur[a].priority
                        >= cur[b].priority by {
                        crate::store::lemma_insert_index(before, pos as int, c, a);
                        crate::store::lemma_insert_index(before, pos as int, c, b);
                    }
                    assert forall|a: int| 0 <= a < cur.len() implies corresponds_to_match(
                        self.rules(),
                        #[trigger] cur[a],
                        method@,
                        url@,
                        status,
                    ) by {
                        crate::store::lemma_insert_index(before, pos as int, c, a);
                        if a == pos as int {
                            assert(same_modifier(c, self.rules()[i as int]));
                        }
                    }
                    assert forall|j: int|
                        0 <= j < i + 1 && (#[trigger] self.rules()[j]).enabled
                            && modifier_matches(self.rules()[j], method@, url@, status)
                            implies exists|a: int|
                        0 <= a < cur.len() && same_modifier(
                            self.rules()[j],
                            #[trigger] cur[a],
                        ) by {
                        if j < i {
                            let w = choose|w: int|
                                0 <= w < before.len() && same_modifier(
                                    self.rules()[j],
                                    #[trigger] before[w],
                                );
                            crate::store::lemma_insert_index(before, pos as int, c, if w
                                < pos as int {
                                w
                            } else {
                                w + 1
                            });
                            if w < pos as int {
                                assert(same_modifier(self.rules()[j], cur[w]));
                            } else {
                                assert(same_modifier(self.rules()[j], cur[w + 1]));
                            }
                        } else {
                            crate::store::lemma_insert_index(before, pos as int, c, pos as int);
                            lemma_same_modifier_sym(c, self.rules()[j]);
                            assert(same_modifier(self.rules()[j], cur[pos as int]));
                        }
                    }
                }
            }
            i += 1;
        }
        proof {
            assert(self.rules().subrange(0, n as int) =~= self.rules());
        }
        r
    }
}

/// Agreement between modifier rules is symmetric.
proof fn lemma_same_modifier_sym(a: ModifierRule, b: ModifierRule)
    requires
        same_modifier(a, b),
    ensures
        same_modifier(b, a),
{
    assert forall|i: int| 0 <= i < b.modifications@.len() implies same_mod(
        #[trigger] b.modifications@[i],
        a.modifications@[i],
    ) by {
        assert(same_mod(a.modifications@[i], b.modifications@[i]));
        lemma_same_mod_sym(a.modifications@[i], b.modifications@[i]);
    }
}

proof fn lemma_same_mod_sym(a: Modification, b: Modification)
    requires
        same_mod(a, b),
    ensures
        same_mod(b, a),
{
    match (a, b) {
        (
            Modification::ModifyJson { path: pa, value: va },
            Modification::ModifyJson { path: pb, value: vb },
        ) => {
            lemma_same_json_sym(va, vb);
        },
        _ => {},
    }
}

/// Structural agreement between JSON values is symmetric.
proof fn lemma_same_json_sym(a: JsonValue, b: JsonValue)
    requires
        same_json(a, b),
    ensures
        same_json(b, a),
    decreases a,
{
    match (a, b) {
        (JsonValue::Array(x), JsonValue::Array(y)) => {
            lemma_same_json_items_sym(x@, y@);
        },
        (JsonValue::Object(x), JsonValue::Object(y)) => {
            lemma_same_json_fields_sym(x@, y@);
        },
        _ => {},
    }
}

proof fn lemma_same_json_items_sym(x: Seq<JsonValue>, y: Seq<JsonValue>)
    requires
        same_json_items(x, y),
    ensures
        same_json_items(y, x),
    decreases x,
{
    if x.len() > 0 {
        lemma_same_json_sym(x[0], y[0]);
        lemma_same_json_items_sym(x.drop_first(), y.drop_first());
    }
}

proof fn lemma_same_json_fields_sym(x: Seq<(String, JsonValue)>, y: Seq<(String, JsonValue)>)
    requires
        same_json_fields(x, y),
    ensures
        same_json_fields(y, x),
    decreases x,
{
    if x.len() > 0 {
        lemma_same_json_sym(x[0].1, y[0].1);
        lemma_same_json_fields_sym(x.drop_first(), y.drop_first());
    }
}


impl ResponseModifier {
    /// Applies every matching enabled rule's modifications, in priority
    /// order, to the response. Returns the final status, the total delay the
    /// caller must now suspend for, and (as a ghost witness) the selection
    /// of rules that ran. The selection is made against the incoming status;
    /// headers evolve exactly as the add/remove modifications say; the body
    /// is only touched by body-rewriting modifications.
    pub fn apply_modifications(
        &self,
        method: &str,
        url: &str,
        status: u16,
        headers: &mut Vec<(String, String)>,
        body: &mut Vec<u8>,
    ) -> (r: (u16, u64, Ghost<Seq<ModifierRule>>))
        ensures
            apply_outcome(
                self.rules(),
                r.2@,
                method@,
                url@,
                status,
                r.0,
                r.1,
                old(headers)@,
                final(headers)@,
                old(body)@,
                final(body)@,
            ),
    {
        let matching = self.find_matching_rules(method, url, Some(status));
        let ghost sel = matching@;
        let ghost h0 = headers@;
        let ghost body0 = body@;
        let mut cur_status = status;
        let mut delay_total: u64 = 0;
        let ghost mut processed: Seq<Modification> = Seq::empty();
        let ghost mut btrace: Seq<Seq<u8>> = seq![body@];
        proof {
            assert(concat_mods(sel.subrange(0, 0)) =~= Seq::<Modification>::empty());
            assert(processed =~= concat_mods(sel.subrange(0, 0)));
        }
        let rn = matching.len();
        let mut ri: usize = 0;
        while ri < rn
            invariant
                ri <= rn,
                rn == sel.len(),
                sel == matching@,
                processed == concat_mods(sel.subrange(0, ri as int)),
                cur_status == mods_status(processed, status),
                delay_total == mods_delay(processed),
                forall|x: Seq<char>|
                    #[trigger] hlookup(headers@, x) == mods_header_val(processed, h0, x),
                body_chain(processed, body0, body@, btrace),
                !mods_touch_body(processed) ==> body@ == body0,
            decreases rn - ri,
        {
            let mods = &matching[ri].modifications;
            let mn = mods.len();
            let mut mi: usize = 0;
            proof {
                assert(sel.subrange(0, ri + 1).drop_last() =~= sel.subrange(0, ri as int));
                assert(concat_mods(sel.subrange(0, ri + 1)) == processed + mods@);
                assert(processed + mods@.subrange(0, 0) =~= processed);
            }
            let ghost rule_base = processed;
            while mi < mn
                invariant
                    mi <= mn,
                    mn == mods@.len(),
                    mods == &matching@[ri as int].modifications,
                    ri < sel.len(),
                    sel == matching@,
                    processed == rule_base + mods@.subrange(0, mi as int),
                    cur_status == mods_status(processed, status),
                    delay_total == mods_delay(processed),
                    forall|x: Seq<char>|
                        #[trigger] hlookup(headers@, x) == mods_header_val(processed, h0, x),
                    body_chain(processed, body0, body@, btrace),
                    !mods_touch_body(processed) ==> body@ == body0,
                decreases mn - mi,
            {
                let ghost prev = processed;
                let ghost m = mods@[mi as int];
                proof {
                    assert(mods@.subrange(0, mi + 1).drop_last() =~= mods@.subrange(0, mi as int));
                    assert(mods@.subrange(0, mi + 1).last() == m);
                    processed = rule_base + mods@.subrange(0, mi + 1);
                    assert(processed.drop_last() =~= prev);
                    assert(processed.last() == m);
                    assert(processed =~= prev.push(m));
                }
                match &mods[mi] {
                    Modification::ReplaceBody { pattern, replacement, use_regex } => {
                        let ghost bmid = body@;
                        let nb = replace_body_bytes(
                            body,
                            pattern.as_str(),
                            replacement.as_str(),
                            *use_regex,
                        );
                        *body = nb;
                        proof {
                            assert(mods_touch_body(processed));
                            assert(mod_body_rel(m, bmid, body@));
                            lemma_chain_extend(prev, m, body0, bmid, body@, btrace);
                            btrace = btrace.push(body@);
                        }
                    },
                    Modification::AddHeader { name, value } => {
                        crate::headers::header_set(headers, name.as_str(), value.clone());
                        proof {
                            assert forall|x: Seq<char>| #[trigger] hlookup(headers@, x)
                                == mods_header_val(processed, h0, x) by {}
                            lemma_touch_body_push(prev, m);
                            assert(mod_body_rel(m, body@, body@));
                            lemma_chain_extend(prev, m, body0, body@, body@, btrace);
                            btrace = btrace.push(body@);
                        }
                    },
                    Modification::RemoveHeader { name } => {
                        crate::headers::header_remove(headers, name.as_str());
                        proof {
                            lemma_touch_body_push(prev, m);
                            assert(mod_body_rel(m, body@, body@));
                            lemma_chain_extend(prev, m, body0, body@, body@, btrace);
                            btrace = btrace.push(body@);
                        }
                    },
                    Modification::ChangeStatus { status: new_status } => {
                        cur_status = *new_status;
                        proof {
                            lemma_touch_body_push(prev, m);
                            assert(mod_body_rel(m, body@, body@));
                            lemma_chain_extend(prev, m, body0, body@, body@, btrace);
                            btrace = btrace.push(body@);
                        }
                    },
                    Modification::InjectDelay { delay_ms } => {
                        delay_total = if delay_total <= u64::MAX - *delay_ms {
                            delay_total + *delay_ms
                        } else {
                            u64::MAX
                        };
                        proof {
                            lemma_touch_body_push(prev, m);
                            assert(mod_body_rel(m, body@, body@));
                            lemma_chain_extend(prev, m, body0, body@, body@, btrace);
                            btrace = btrace.push(body@);
                        }
                    },
                    Modification::ModifyJson { path, value } => {
                        let ghost bmid = body@;
                        let nb = modify_json_body(body, path.as_str(), value);
                        *body = nb;
                        proof {
                            assert(mods_touch_body(processed));
                            assert(mod_body_rel(m, bmid, body@));
                            lemma_chain_extend(prev, m, body0, bmid, body@, btrace);
                            btrace = btrace.push(body@);
                        }
                    },
                }
                mi += 1;
            }
            proof {
                assert(mods@.subrange(0, mn as int) =~= mods@);
                assert(processed =~= concat_mods(sel.subrange(0, ri + 1)));
            }
            ri += 1;
        }
        proof {
            assert(sel.subrange(0, rn as int) =~= sel);
            assert(body_chain(concat_mods(sel), body0, body@, btrace));
        }
        (cur_status, delay_total, Ghost(sel))
    }
}

/// Appending one step to a body trace keeps it a chain.
proof fn lemma_chain_extend(
    mods: Seq<Modification>,
    m: Modification,
    b0: Seq<u8>,
    mid: Seq<u8>,
    b1: Seq<u8>,
    bt: Seq<Seq<u8>>,
)
    requires
        body_chain(mods, b0, mid, bt),
        mod_body_rel(m, mid, b1),
    ensures
        body_chain(mods.push(m), b0, b1, bt.push(b1)),
{
    let t = mods.push(m);
    let bt2 = bt.push(b1);
    assert forall|i: int| 0 <= i < t.len() implies mod_body_rel(
        #[trigger] t[i],
        bt2[i],
        bt2[i + 1],
    ) by {
        if i < mods.len() {
            assert(t[i] == mods[i]);
            assert(bt2[i] == bt[i]);
            assert(bt2[i + 1] == bt[i + 1]);
        } else {
            assert(t[i] == m);
            assert(bt2[i] == mid);
            assert(bt2[i + 1] == b1);
        }
    }
}

/// A body that is not valid UTF-8 comes through every modifier pass
/// unchanged: no modification can rewrite it, so the whole chain keeps it
/// byte for byte.
pub proof fn lemma_chain_keeps_invalid_body(
    mods: Seq<Modification>,
    b0: Seq<u8>,
    b1: Seq<u8>,
    bt: Seq<Seq<u8>>,
)
    requires
        body_chain(mods, b0, b1, bt),
        !vstd::utf8::valid_utf8(b0),
    ensures
        b1 == b0,
{
    lemma_chain_invalid_prefix(mods, b0, b1, bt, mods.len() as int);
}

proof fn lemma_chain_invalid_prefix(
    mods: Seq<Modification>,
    b0: Seq<u8>,
    b1: Seq<u8>,
    bt: Seq<Seq<u8>>,
    i: int,
)
    requires
        body_chain(mods, b0, b1, bt),
        !vstd::utf8::valid_utf8(b0),
        0 <= i <= mods.len(),
    ensures
        bt[i] == b0,
    decreases i,
{
    if i > 0 {
        lemma_chain_invalid_prefix(mods, b0, b1, bt, i - 1);
        assert(mod_body_rel(mods[i - 1], bt[i - 1], bt[i]));
    }
}

/// A modification that does not rewrite the body leaves the body-touching
/// property of a list as it was.
proof fn lemma_touch_body_push(mods: Seq<Modification>, m: Modification)
    requires
        !(m is ReplaceBody),
        !(m is ModifyJson),
    ensures
        mods_touch_body(mods.push(m)) == mods_touch_body(mods),
{
    let t = mods.push(m);
    if mods_touch_body(mods) {
        let i = choose|i: int|
            0 <= i < mods.len() && ((#[trigger] mods[i]) is ReplaceBody || mods[i] is ModifyJson);
        assert(t[i] == mods[i]);
        assert(mods_touch_body(t));
    }
    if mods_touch_body(t) {
        let i = choose|i: int|
            0 <= i < t.len() && ((#[trigger] t[i]) is ReplaceBody || t[i] is ModifyJson);
        if i < mods.len() {
            assert(mods[i] == t[i]);
            assert(mods_touch_body(mods));
        } else {
            assert(t[i] == m);
            assert(false);
        }
    }
}

} // verus!
