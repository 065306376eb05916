//! A JSON document model for schemas and manifests, with map-style access and the
//! JSON text that serde_json reads and writes.
//!
//! Object members are kept as a list ordered by key (the order of a JSON object map);
//! a number is kept as its JSON text.

use vstd::prelude::*;

use crate::text::chars_of;

verus! {

/// A JSON value.
#[derive(Debug)]
pub enum Json {
    Null,
    Bool(bool),
    /// A number, as its JSON text (`1`, `-2.5`, `1e+30`).
    Number(String),
    Str(String),
    Array(Vec<Json>),
    /// Members in key order.
    Object(Vec<(String, Json)>),
}

/// The mathematical content of a [`Json`] value.
pub enum JsonV {
    Null,
    Bool(bool),
    Number(Seq<char>),
    Str(Seq<char>),
    Array(Seq<JsonV>),
    Object(Seq<(Seq<char>, JsonV)>),
}

/// A member list: `(name, value)` pairs in stored order.
pub type Members = Seq<(Seq<char>, JsonV)>;

pub open spec fn jv(v: Json) -> JsonV
    decreases v, 0nat,
{
    match v {
        Json::Null => JsonV::Null,
        Json::Bool(b) => JsonV::Bool(b),
        Json::Number(n) => JsonV::Number(n@),
        Json::Str(s) => JsonV::Str(s@),
        Json::Array(a) => JsonV::Array(jv_items(a@)),
        Json::Object(m) => JsonV::Object(jv_members(m@)),
    }
}

pub open spec fn jv_items(s: Seq<Json>) -> Seq<JsonV>
    decreases s, s.len(),
{
    if s.len() == 0 {
        Seq::empty()
    } else {
        jv_items(s.drop_last()).push(jv(s.last()))
    }
}

pub open spec fn jv_members(s: Seq<(String, Json)>) -> Members
    decreases s, s.len(),
{
    if s.len() == 0 {
        Seq::empty()
    } else {
        jv_members(s.drop_last()).push((s.last().0@, jv(s.last().1)))
    }
}

impl View for Json {
    type V = JsonV;

    open spec fn view(&self) -> JsonV {
        jv(*self)
    }
}

pub proof fn lemma_jv_items_index(s: Seq<Json>, i: int)
    requires
        0 <= i < s.len(),
    ensures
        jv_items(s).len() == s.len(),
        jv_items(s)[i] == jv(s[i]),
    decreases s.len(),
{
    if i < s.len() - 1 {
        lemma_jv_items_index(s.drop_last(), i);
    } else {
        lemma_jv_items_len(s.drop_last());
    }
}

pub proof fn lemma_jv_items_len(s: Seq<Json>)
    ensures
        jv_items(s).len() == s.len(),
    decreases s.len(),
{
    if s.len() > 0 {
        lemma_jv_items_len(s.drop_last());
    }
}

pub proof fn lemma_jv_members_len(s: Seq<(String, Json)>)
    ensures
        jv_members(s).len() == s.len(),
    decreases s.len(),
{
    if s.len() > 0 {
        lemma_jv_members_len(s.drop_last());
    }
}

pub proof fn lemma_jv_members_index(s: Seq<(String, Json)>, i: int)
    requires
        0 <= i < s.len(),
    ensures
        jv_members(s).len() == s.len(),
        jv_members(s)[i] == (s[i].0@, jv(s[i].1)),
    decreases s.len(),
{
    if i < s.len() - 1 {
        lemma_jv_members_index(s.drop_last(), i);
    } else {
        lemma_jv_members_len(s.drop_last());
    }
}

/// The views of two lists agree when their elements' views do.
pub proof fn lemma_jv_members_ext(a: Seq<(String, Json)>, b: Seq<(String, Json)>)
    requires
        a.len() == b.len(),
        forall|i: int| 0 <= i < a.len() ==> (#[trigger] a[i]).0@ == b[i].0@ && jv(a[i].1) == jv(b[i].1),
    ensures
        jv_members(a) == jv_members(b),
    decreases a.len(),
{
    if a.len() > 0 {
        lemma_jv_members_ext(a.drop_last(), b.drop_last());
    }
}

pub proof fn lemma_jv_items_ext(a: Seq<Json>, b: Seq<Json>)
    requires
        a.len() == b.len(),
        forall|i: int| 0 <= i < a.len() ==> jv(#[trigger] a[i]) == jv(b[i]),
    ensures
        jv_items(a) == jv_items(b),
    decreases a.len(),
{
    if a.len() > 0 {
        lemma_jv_items_ext(a.drop_last(), b.drop_last());
    }
}

// ---------------------------------------------------------------- member lists

/// The value of the first member named `key`.
pub open spec fn members_get(m: Members, key: Seq<char>) -> Option<JsonV>
    decreases m.len(),
{
    if m.len() == 0 {
        None
    } else if m[0].0 == key {
        Some(m[0].1)
    } else {
        members_get(m.drop_first(), key)
    }
}

/// `m` with the member `key` set to `v`: replaced in place when present, otherwise
/// inserted before the first larger key.
pub open spec fn members_insert(m: Members, key: Seq<char>, v: JsonV) -> Members
    decreases m.len(),
{
    if m.len() == 0 {
        seq![(key, v)]
    } else if m[0].0 == key {
        seq![(key, v)] + m.drop_first()
    } else if crate::text::chars_lt(key, m[0].0) {
        seq![(key, v)] + m
    } else {
        seq![m[0]] + members_insert(m.drop_first(), key, v)
    }
}

/// A member list has a member named `key` exactly when some entry carries that name.
pub proof fn lemma_members_get_none(m: Members, key: Seq<char>)
    ensures
        members_get(m, key) is None <==> forall|i: int| 0 <= i < m.len() ==> (#[trigger] m[i]).0 != key,
    decreases m.len(),
{
    if m.len() > 0 {
        lemma_members_get_none(m.drop_first(), key);
        if m[0].0 != key {
            assert forall|i: int| 1 <= i < m.len() implies (#[trigger] m[i]) == m.drop_first()[i - 1] by {}
            if members_get(m.drop_first(), key) is Some {
                let j = choose|j: int| 0 <= j < m.drop_first().len() && (#[trigger] m.drop_first()[j]).0 == key;
                assert(m[j + 1] == m.drop_first()[j]);
            }
        }
    }
}

/// Setting a member makes it readable: right after `members_insert(m, key, v)`, the
/// member `key` is `v`.
pub proof fn lemma_members_insert_get(m: Members, key: Seq<char>, v: JsonV)
    ensures
        members_get(members_insert(m, key, v), key) == Some(v),
    decreases m.len(),
{
    if m.len() > 0 && m[0].0 != key && !crate::text::chars_lt(key, m[0].0) {
        lemma_members_insert_get(m.drop_first(), key, v);
        let r = members_insert(m, key, v);
        assert(r.drop_first() =~= members_insert(m.drop_first(), key, v));
    }
}

/// Setting one member leaves every other member as it was.
pub proof fn lemma_members_insert_get_other(m: Members, key: Seq<char>, v: JsonV, other: Seq<char>)
    requires
        other != key,
    ensures
        members_get(members_insert(m, key, v), other) == members_get(m, other),
    decreases m.len(),
{
    let r = members_insert(m, key, v);
    if m.len() == 0 {
        assert(r =~= seq![(key, v)]);
        assert(r.drop_first() =~= Seq::<(Seq<char>, JsonV)>::empty());
        assert(members_get(r.drop_first(), other) is None);
        assert(members_get(r, other) == members_get(r.drop_first(), other));
    } else if m[0].0 == key {
        assert(r == seq![(key, v)] + m.drop_first());
        assert(r[0] == (key, v));
        assert(r.drop_first() =~= m.drop_first());
        assert(members_get(r, other) == members_get(r.drop_first(), other));
        assert(members_get(m, other) == members_get(m.drop_first(), other));
    } else if crate::text::chars_lt(key, m[0].0) {
        assert(r == seq![(key, v)] + m);
        assert(r[0] == (key, v));
        assert(r.drop_first() =~= m);
        assert(members_get(r, other) == members_get(r.drop_first(), other));
    } else {
        lemma_members_insert_get_other(m.drop_first(), key, v, other);
        assert(r == seq![m[0]] + members_insert(m.drop_first(), key, v));
        assert(r[0] == m[0]);
        assert(r.drop_first() =~= members_insert(m.drop_first(), key, v));
    }
}

/// `m` without its first member named `key`.
pub open spec fn members_remove(m: Members, key: Seq<char>) -> Members
    decreases m.len(),
{
    if m.len() == 0 {
        m
    } else if m[0].0 == key {
        m.drop_first()
    } else {
        seq![m[0]] + members_remove(m.drop_first(), key)
    }
}

/// `m` with every member of `more` set in turn (`Map::extend`).
pub open spec fn members_extend(m: Members, more: Members) -> Members
    decreases more.len(),
{
    if more.len() == 0 {
        m
    } else {
        members_insert(members_extend(m, more.drop_last()), more.last().0, more.last().1)
    }
}

/// `m` with `key` set to `v` unless already present (`entry(key).or_insert(v)`).
pub open spec fn members_or_insert(m: Members, key: Seq<char>, v: JsonV) -> Members {
    if members_get(m, key) is Some {
        m
    } else {
        members_insert(m, key, v)
    }
}

// ---------------------------------------------------------------- value access

/// `Value::get(key)`: the member of an object.
pub open spec fn get(v: JsonV, key: Seq<char>) -> Option<JsonV> {
    match v {
        JsonV::Object(m) => members_get(m, key),
        _ => None,
    }
}

pub open spec fn get_opt(v: Option<JsonV>, key: Seq<char>) -> Option<JsonV> {
    match v {
        Some(v) => get(v, key),
        None => None,
    }
}

pub open spec fn as_str(v: Option<JsonV>) -> Option<Seq<char>> {
    match v {
        Some(JsonV::Str(s)) => Some(s),
        _ => None,
    }
}

pub open spec fn as_bool(v: Option<JsonV>) -> Option<bool> {
    match v {
        Some(JsonV::Bool(b)) => Some(b),
        _ => None,
    }
}

pub open spec fn as_array(v: Option<JsonV>) -> Option<Seq<JsonV>> {
    match v {
        Some(JsonV::Array(a)) => Some(a),
        _ => None,
    }
}

pub open spec fn as_object(v: Option<JsonV>) -> Option<Members> {
    match v {
        Some(JsonV::Object(m)) => Some(m),
        _ => None,
    }
}

pub open spec fn opt_jv(o: Option<&Json>) -> Option<JsonV> {
    match o {
        Some(x) => Some(jv(*x)),
        None => None,
    }
}

/// Equality of two string slices.
pub fn str_eq(a: &str, b: &str) -> (r: bool)
    ensures
        r == (a@ == b@),
{
    crate::text::chars_eq(&chars_of(a), &chars_of(b))
}

/// Position of the first member named `key`.
pub fn find_member(m: &Vec<(String, Json)>, key: &str) -> (r: Option<usize>)
    ensures
        match r {
            Some(i) => i < m.len() && members_get(jv_members(m@), key@) == Some(jv(m@[i as int].1))
                && m@[i as int].0@ == key@,
            None => members_get(jv_members(m@), key@) is None,
        },
{
    let mut i: usize = 0;
    proof {
        lemma_jv_members_len(m@);
        assert(jv_members(m@).skip(0) =~= jv_members(m@));
    }
    while i < m.len()
        invariant
            i <= m.len(),
            jv_members(m@).len() == m.len(),
            members_get(jv_members(m@), key@) == members_get(jv_members(m@).skip(i as int), key@),
        decreases m.len() - i,
    {
        proof {
            lemma_jv_members_index(m@, i as int);
            assert(jv_members(m@).skip(i as int).drop_first() =~= jv_members(m@).skip(i + 1));
        }
        if str_eq(m[i].0.as_str(), key) {
            return Some(i);
        }
        i = i + 1;
    }
    None
}

impl Json {
    /// `Value::get(key)`.
    pub fn get(&self, key: &str) -> (r: Option<&Json>)
        ensures
            opt_jv(r) == get(self@, key@),
    {
        match self {
            Json::Object(m) => match find_member(m, key) {
                Some(i) => Some(&m[i].1),
                None => None,
            },
            _ => None,
        }
    }

    /// A deep copy.
    pub fn duplicate(&self) -> (r: Json)
        ensures
            r@ == self@,
        decreases self,
    {
        match self {
            Json::Null => Json::Null,
            Json::Bool(b) => Json::Bool(*b),
            Json::Number(n) => Json::Number(n.clone()),
            Json::Str(s) => Json::Str(s.clone()),
            Json::Array(a) => Json::Array(duplicate_items(a)),
            Json::Object(m) => Json::Object(duplicate_members(m)),
        }
    }

    pub fn is_null(&self) -> (r: bool)
        ensures
            r == (self@ is Null),
    {
        match self {
            Json::Null => true,
            _ => false,
        }
    }

    pub fn is_object(&self) -> (r: bool)
        ensures
            r == (self@ is Object),
    {
        match self {
            Json::Object(_) => true,
            _ => false,
        }
    }

    pub fn as_str(&self) -> (r: Option<&String>)
        ensures
            match r {
                Some(s) => self@ == JsonV::Str(s@),
                None => !(self@ is Str),
            },
    {
        match self {
            Json::Str(s) => Some(s),
            _ => None,
        }
    }
}

/// A deep copy of a list of values.
pub fn duplicate_items(a: &Vec<Json>) -> (r: Vec<Json>)
    ensures
        jv_items(r@) == jv_items(a@),
        r@.len() == a@.len(),
    decreases a,
{
    let mut r: Vec<Json> = Vec::new();
    let mut i: usize = 0;
    while i < a.len()
        invariant
            i <= a.len(),
            r@.len() == i,
            forall|k: int| 0 <= k < i ==> jv(#[trigger] r@[k]) == jv(a@[k]),
        decreases a.len() - i,
    {
        assert(decreases_to!(a => a@[i as int]));
        let x = a[i].duplicate();
        r.push(x);
        i = i + 1;
    }
    proof { lemma_jv_items_ext(r@, a@); }
    r
}

/// A deep copy of a member list.
pub fn duplicate_members(m: &Vec<(String, Json)>) -> (r: Vec<(String, Json)>)
    ensures
        jv_members(r@) == jv_members(m@),
        r@.len() == m@.len(),
    decreases m,
{
    let mut r: Vec<(String, Json)> = Vec::new();
    let mut i: usize = 0;
    while i < m.len()
        invariant
            i <= m.len(),
            r@.len() == i,
            forall|k: int| 0 <= k < i ==> (#[trigger] r@[k]).0@ == m@[k].0@ && jv(r@[k].1) == jv(m@[k].1),
        decreases m.len() - i,
    {
        assert(decreases_to!(m => m@[i as int].1));
        let x = (m[i].0.clone(), m[i].1.duplicate());
        r.push(x);
        i = i + 1;
    }
    proof { lemma_jv_members_ext(r@, m@); }
    r
}

/// Whether `key` equals `k` or sorts before it.
fn key_at_or_before(key: &Vec<char>, k: &String) -> (r: bool)
    ensures
        r == (key@ == k@ || crate::text::chars_lt(key@, k@)),
{
    let kc = chars_of(k.as_str());
    crate::text::chars_eq(key, &kc) || crate::text::chars_less(key, &kc)
}

/// Sets member `key` to `v` (`Map::insert`).
pub fn insert_member(m: &mut Vec<(String, Json)>, key: String, v: Json)
    ensures
        jv_members(final(m)@) == members_insert(jv_members(old(m)@), key@, v@),
{
    let ghost orig = m@;
    let ghost om = jv_members(orig);
    let kc = chars_of(key.as_str());
    let mut i: usize = 0;
    proof {
        lemma_jv_members_index_all(orig);
        assert(om.skip(0) =~= om);
        assert(om.take(0) =~= Seq::<(Seq<char>, JsonV)>::empty());
    }
    while i < m.len() && !key_at_or_before(&kc, &m[i].0)
        invariant
            i <= m.len(),
            m@ == orig,
            om == jv_members(orig),
            om.len() == orig.len(),
            forall|k: int| 0 <= k < orig.len() ==> #[trigger] om[k] == (orig[k].0@, jv(orig[k].1)),
            kc@ == key@,
            members_insert(om, key@, v@) == om.take(i as int) + members_insert(om.skip(i as int), key@, v@),
        decreases m.len() - i,
    {
        proof {
            let s = om.skip(i as int);
            assert(s[0] == om[i as int]);
            assert(s.drop_first() =~= om.skip(i + 1));
            assert(om.take(i + 1) =~= om.take(i as int) + seq![s[0]]);
            assert(om.take(i as int) + (seq![s[0]] + members_insert(s.drop_first(), key@, v@)) =~= om.take(i + 1) + members_insert(om.skip(i + 1), key@, v@));
        }
        i = i + 1;
    }
    let ghost s = om.skip(i as int);
    let ghost kv = key@;
    let ghost vv = v@;
    if i < m.len() && str_eq(m[i].0.as_str(), key.as_str()) {
        m.set(i, (key, v));
        proof {
            assert(s[0] == om[i as int]);
            assert(s.drop_first() =~= om.skip(i + 1));
            assert(members_insert(s, kv, vv) == seq![(kv, vv)] + s.drop_first());
            lemma_jv_members_index_all(m@);
            assert(jv_members(m@) =~= om.take(i as int) + (seq![(kv, vv)] + s.drop_first()));
        }
    } else {
        m.insert(i, (key, v));
        proof {
            if i < orig.len() {
                assert(s[0] == om[i as int]);
            }
            assert(members_insert(s, kv, vv) == seq![(kv, vv)] + s);
            lemma_jv_members_index_all(m@);
            assert(jv_members(m@) =~= om.take(i as int) + (seq![(kv, vv)] + s));
        }
    }
}

/// Every element of the view of a member list.
pub proof fn lemma_jv_members_index_all(s: Seq<(String, Json)>)
    ensures
        jv_members(s).len() == s.len(),
        forall|i: int| 0 <= i < s.len() ==> #[trigger] jv_members(s)[i] == (s[i].0@, jv(s[i].1)),
{
    lemma_jv_members_len(s);
    assert forall|i: int| 0 <= i < s.len() implies #[trigger] jv_members(s)[i] == (s[i].0@, jv(s[i].1)) by {
        lemma_jv_members_index(s, i);
    }
}

/// Every element of the view of a list of values.
pub proof fn lemma_jv_items_index_all(s: Seq<Json>)
    ensures
        jv_items(s).len() == s.len(),
        forall|i: int| 0 <= i < s.len() ==> #[trigger] jv_items(s)[i] == jv(s[i]),
{
    lemma_jv_items_len(s);
    assert forall|i: int| 0 <= i < s.len() implies #[trigger] jv_items(s)[i] == jv(s[i]) by {
        lemma_jv_items_index(s, i);
    }
}

/// Removes the member `key`, if present (`Map::remove`).
pub fn remove_member(m: &mut Vec<(String, Json)>, key: &str)
    ensures
        jv_members(final(m)@) == members_remove(jv_members(old(m)@), key@),
{
    let ghost orig = m@;
    let ghost om = jv_members(orig);
    let mut i: usize = 0;
    proof {
        lemma_jv_members_index_all(orig);
        assert(om.skip(0) =~= om);
        assert(om.take(0) =~= Seq::<(Seq<char>, JsonV)>::empty());
    }
    while i < m.len() && !str_eq(m[i].0.as_str(), key)
        invariant
            i <= m.len(),
            m@ == orig,
            om == jv_members(orig),
            om.len() == orig.len(),
            forall|k: int| 0 <= k < orig.len() ==> #[trigger] om[k] == (orig[k].0@, jv(orig[k].1)),
            members_remove(om, key@) == om.take(i as int) + members_remove(om.skip(i as int), key@),
        decreases m.len() - i,
    {
        proof {
            let s = om.skip(i as int);
            assert(s[0] == om[i as int]);
            assert(s.drop_first() =~= om.skip(i + 1));
            assert(om.take(i as int) + (seq![s[0]] + members_remove(s.drop_first(), key@)) =~= om.take(i + 1) + members_remove(om.skip(i + 1), key@));
        }
        i = i + 1;
    }
    let ghost s = om.skip(i as int);
    if i < m.len() {
        let _ = m.remove(i);
        proof {
            assert(s[0] == om[i as int]);
            assert(members_remove(s, key@) == s.drop_first());
            assert(s.drop_first() =~= om.skip(i + 1));
            lemma_jv_members_index_all(m@);
            assert(jv_members(m@) =~= om.take(i as int) + s.drop_first());
        }
    } else {
        assert(om.take(i as int) =~= om);
    }
}

// ---------------------------------------------------------------- JSON text

/// The compact JSON text that serde_json writes for a value (`Value::to_string`): no
/// white space, object members by key; a function of the value alone.
pub uninterp spec fn json_text(v: JsonV) -> Seq<char>;

/// A [`Json`] as serde_json's value, variant by variant (a number read from its text;
/// text that serde_json does not read as a number becomes null). Only the wrappers that
/// write JSON text and validate call it, inside their bodies; their contracts cover what
/// it gives.
#[verifier::external_body]
pub(crate) fn value_of_json(v: &Json) -> serde_json::Value {
    match v {
        Json::Null => serde_json::Value::Null,
        Json::Bool(b) => serde_json::Value::Bool(*b),
        Json::Number(n) => n.parse::<serde_json::Number>().map(serde_json::Value::Number).unwrap_or(serde_json::Value::Null),
        Json::Str(t) => serde_json::Value::String(t.clone()),
        Json::Array(a) => serde_json::Value::Array(a.iter().map(value_of_json).collect()),
        Json::Object(m) => serde_json::Value::Object(m.iter().map(|(k, x)| (k.clone(), value_of_json(x))).collect()),
    }
}

/// `serde_json::Value::to_string` of the value.
#[verifier::external_body]
fn json_string(v: &Json) -> (r: String)
    ensures
        r@ == json_text(v@),
{
    value_of_json(v).to_string()
}

/// The compact JSON text of a value, as serde_json writes it.
pub fn to_text(v: &Json) -> (r: String)
    ensures
        r@ == json_text(v@),
{
    json_string(v)
}

// ---------------------------------------------------------------- numbers as text

/// Decimal digits of `n` (no sign, no leading zeros).
pub open spec fn decimal(n: nat) -> Seq<char>
    decreases n,
{
    if n < 10 {
        seq![((n + 48) as u8) as char]
    } else {
        decimal(n / 10) + seq![(((n % 10) + 48) as u8) as char]
    }
}

/// The decimal text of an integer.
pub fn decimal_text(n: u128) -> (r: Vec<char>)
    ensures
        r@ == decimal(n as nat),
    decreases n,
{
    if n < 10 {
        let mut r: Vec<char> = Vec::new();
        r.push(((n + 48) as u8) as char);
        r
    } else {
        let mut r = decimal_text(n / 10);
        r.push((((n % 10) + 48) as u8) as char);
        r
    }
}

/// Decimal text of a signed integer: a `-` before the digits of a negative one.
pub open spec fn int_decimal(n: int) -> Seq<char> {
    if n < 0 {
        seq!['-'] + decimal((-n) as nat)
    } else {
        decimal(n as nat)
    }
}

/// The decimal text of a signed 64-bit integer (`i64::to_string`).
pub fn integer_text(n: i64) -> (r: Vec<char>)
    ensures
        r@ == int_decimal(n as int),
{
    if n < 0 {
        let m: i128 = -(n as i128);
        let mut r: Vec<char> = Vec::new();
        r.push('-');
        let d = decimal_text(m as u128);
        crate::text::extend_chars(&mut r, &d);
        assert(r@ =~= seq!['-'] + decimal((-(n as int)) as nat));
        r
    } else {
        decimal_text(n as u128)
    }
}


// ---------------------------------------------------------------- parsing JSON text

#[verifier::external_type_specification]
#[verifier::external_body]
pub struct ExJsonValue(serde_json::Value);

/// serde_json's value as a [`Json`], variant by variant: a number as its JSON text, an
/// object's members in the order of serde_json's map (by key). Only the parsing wrappers
/// call it, inside their bodies; their contracts cover what it gives.
#[verifier::external_body]
pub(crate) fn json_of_value(v: &serde_json::Value) -> Json {
    match v {
        serde_json::Value::Null => Json::Null,
        serde_json::Value::Bool(b) => Json::Bool(*b),
        serde_json::Value::Number(n) => Json::Number(n.to_string()),
        serde_json::Value::String(t) => Json::Str(t.clone()),
        serde_json::Value::Array(a) => Json::Array(a.iter().map(json_of_value).collect()),
        serde_json::Value::Object(m) => Json::Object(m.iter().map(|(k, x)| (k.clone(), json_of_value(x))).collect()),
    }
}

/// The value that serde_json reads from the bytes `b` (`serde_json::from_slice`), or the
/// text of its error; a function of the bytes alone.
pub uninterp spec fn json_of_bytes(b: Seq<u8>) -> Result<JsonV, Seq<char>>;

/// `serde_json::from_slice` into a value: the parsed value, or the error's text.
#[verifier::external_body]
pub(crate) fn parse_json_bytes(b: &[u8]) -> (r: Result<Json, String>)
    ensures
        match r {
            Ok(v) => json_of_bytes(b@) == Ok::<JsonV, Seq<char>>(v@),
            Err(e) => json_of_bytes(b@) == Err::<JsonV, Seq<char>>(e@),
        },
{
    match serde_json::from_slice::<serde_json::Value>(b) {
        Ok(v) => Ok(json_of_value(&v)),
        Err(e) => Err(e.to_string()),
    }
}

} // verus!
