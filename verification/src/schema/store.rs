//! Kind resolution: parsing user kind strings, ranking candidates, picking one; and the
//! cache of decoded schemas.

use std::num::NonZeroUsize;
use std::sync::Arc;

use lru::LruCache;
use vstd::prelude::*;

use crate::db::{version_key, version_key_of};
use crate::error::{is_invalid_input, is_not_found, AppError};
use crate::json::{json_of_bytes, parse_json_bytes, Json, JsonV};
use crate::sort::{
    insert_stable, lemma_insert_stable_at, lemma_sort_stable_multiset, lemma_sort_stable_sorted,
    sort_stable, sorted_by, strict_weak_order,
};
use crate::text::{
    byte_len, byte_len_exceeds, chars_of, is_digit, is_digit_char, lemma_find_char_absent,
    lemma_split_once_at, parse_u64, parse_u64_chars,
    push_all, sep_fn, slice_chars, split_by, split_on, split_once, split_once_chars, string_of,
    trim, trim_chars, Sep,
};

verus! {

/// One indexed kind: where it comes from and what it is.
#[derive(Debug, Clone, PartialEq, Eq)]
pub struct KindRef {
    pub kind_id: i64,
    pub project: String,
    pub version: String,
    pub pinned: bool,
    pub source: String,
    pub api_group: String,
    pub api_version: String,
    pub kind: String,
    pub scope: Option<String>,
    pub description: Option<String>,
}

pub open spec fn opt_view(o: Option<String>) -> Option<Seq<char>> {
    match o {
        Some(s) => Some(s@),
        None => None,
    }
}

fn copy_opt(o: &Option<String>) -> (r: Option<String>)
    ensures
        r == *o,
{
    match o {
        Some(s) => Some(s.clone()),
        None => None,
    }
}

/// `group/version`, or just `version` for the core (empty) group.
pub open spec fn group_version_of(group: Seq<char>, version: Seq<char>) -> Seq<char> {
    if group.len() == 0 {
        version
    } else {
        group + seq!['/'] + version
    }
}

impl KindRef {
    /// A field-by-field copy.
    pub fn duplicate(&self) -> (r: KindRef)
        ensures
            r == *self,
    {
        KindRef {
            kind_id: self.kind_id,
            project: self.project.clone(),
            version: self.version.clone(),
            pinned: self.pinned,
            source: self.source.clone(),
            api_group: self.api_group.clone(),
            api_version: self.api_version.clone(),
            kind: self.kind.clone(),
            scope: copy_opt(&self.scope),
            description: copy_opt(&self.description),
        }
    }

    /// The `apiVersion` of this kind: `group/version`, or `version` for the core group.
    pub fn group_version(&self) -> (r: String)
        ensures
            r@ == group_version_of(self.api_group@, self.api_version@),
    {
        if self.api_group.as_str().is_empty() {
            self.api_version.clone()
        } else {
            let mut out = self.api_group.clone();
            let slash = vec!['/'];
            push_all(&mut out, &slash);
            push_all(&mut out, &chars_of(self.api_version.as_str()));
            assert(slash@ =~= seq!['/']);
            out
        }
    }
}

/// What a user's kind string asks for.
#[derive(Debug, Clone, Default, PartialEq, Eq)]
pub struct KindQuery {
    pub kind: String,
    pub group: Option<String>,
    pub api_version: Option<String>,
    pub project: Option<String>,
    pub version: Option<String>,
}

/// The mathematical content of a [`KindQuery`].
pub struct KindQueryV {
    pub kind: Seq<char>,
    pub group: Option<Seq<char>>,
    pub api_version: Option<Seq<char>>,
    pub project: Option<Seq<char>>,
    pub version: Option<Seq<char>>,
}

impl View for KindQuery {
    type V = KindQueryV;

    open spec fn view(&self) -> KindQueryV {
        KindQueryV {
            kind: self.kind@,
            group: opt_view(self.group),
            api_version: opt_view(self.api_version),
            project: opt_view(self.project),
            version: opt_view(self.version),
        }
    }
}

/// `(group, version)` of an `apiVersion`: split at the first `/`, or the empty group.
pub open spec fn split_api_version_of(av: Seq<char>) -> (Seq<char>, Seq<char>) {
    match split_once(av, '/') {
        Some((g, v)) => (g, v),
        None => (Seq::empty(), av),
    }
}

pub open spec fn parse_error_message(s: Seq<char>) -> Seq<char> {
    "cannot parse kind '"@ + s + "'"@
}

pub open spec fn query_of(
    kind: Seq<char>,
    group: Option<Seq<char>>,
    api_version: Option<Seq<char>>,
) -> KindQueryV {
    KindQueryV { kind, group, api_version, project: None, version: None }
}

/// What `parse_kind_input` makes of a (trimmed, length-checked) kind string: the query,
/// or `None` when the form is not recognised.
pub open spec fn parse_kind_form(s: Seq<char>) -> Option<KindQueryV> {
    match split_once(s, ':') {
        Some((av, kind)) => {
            let (g, v) = split_api_version_of(av);
            Some(query_of(kind, Some(g), Some(v)))
        },
        None => {
            let parts = split_by(s, sep_fn(Sep::Char('/')));
            let q = if parts.len() == 1 {
                match split_once(parts[0], '.') {
                    Some((k, g)) => Some(query_of(k, Some(g), None)),
                    None => Some(query_of(parts[0], None, None)),
                }
            } else if parts.len() == 2 {
                Some(query_of(parts[1], Some(Seq::empty()), Some(parts[0])))
            } else if parts.len() == 3 {
                Some(query_of(parts[2], Some(parts[0]), Some(parts[1])))
            } else {
                None
            };
            match q {
                Some(q) => if q.kind.len() == 0 {
                    None
                } else {
                    Some(q)
                },
                None => None,
            }
        },
    }
}

/// Split an `apiVersion` into group and version (`apps/v1` gives `apps`, `v1`; `v1` gives
/// the empty core group).
pub fn split_api_version(api_version: &str) -> (r: (String, String))
    ensures
        (r.0@, r.1@) == split_api_version_of(api_version@),
{
    let chars = chars_of(api_version);
    match split_once_chars(&chars, '/') {
        Some((g, v)) => (string_of(&g), string_of(&v)),
        None => (String::new(), string_of(&chars)),
    }
}

/// Parse `Kind`, `Kind.group`, `group/version/Kind`, `version/Kind` (core), `apiVersion:Kind`.
pub fn parse_kind_input(input: &str) -> (r: Result<KindQuery, AppError>)
    ensures
        ({
            let s = trim(input@);
            if s.len() == 0 || byte_len(s) > 200 {
                r matches Err(e) && is_invalid_input(e, "kind must be 1..200 chars"@)
            } else {
                match parse_kind_form(s) {
                    Some(q) => r matches Ok(k) && k@ == q,
                    None => r matches Err(e) && is_invalid_input(e, parse_error_message(s)),
                }
            }
        }),
{
    let s = trim_chars(&chars_of(input));
    if s.len() == 0 || byte_len_exceeds(&s, 200) {
        return Err(AppError::InvalidInput("kind must be 1..200 chars".to_owned()));
    }
    if let Some((av, kind)) = split_once_chars(&s, ':') {
        let (g, v) = split_api_version(string_of(&av).as_str());
        return Ok(
            KindQuery {
                kind: string_of(&kind),
                group: Some(g),
                api_version: Some(v),
                project: None,
                version: None,
            },
        );
    }
    let parts = split_on(&s, Sep::Char('/'));
    proof {
        crate::text::lemma_split_by_nonempty(s@, sep_fn(Sep::Char('/')));
    }
    let ghost pv = parts.deep_view();
    assert(forall|i: int| 0 <= i < parts.len() ==> #[trigger] parts[i]@ == pv[i]) by {
        assert forall|i: int| 0 <= i < parts.len() implies #[trigger] parts[i]@ == pv[i] by {
            assert(parts[i].deep_view() =~= parts[i]@);
        }
    }
    let q = if parts.len() == 1 {
        match split_once_chars(&parts[0], '.') {
            Some((k, g)) => KindQuery {
                kind: string_of(&k),
                group: Some(string_of(&g)),
                api_version: None,
                project: None,
                version: None,
            },
            None => KindQuery {
                kind: string_of(&parts[0]),
                group: None,
                api_version: None,
                project: None,
                version: None,
            },
        }
    } else if parts.len() == 2 {
        KindQuery {
            kind: string_of(&parts[1]),
            group: Some(String::new()),
            api_version: Some(string_of(&parts[0])),
            project: None,
            version: None,
        }
    } else if parts.len() == 3 {
        KindQuery {
            kind: string_of(&parts[2]),
            group: Some(string_of(&parts[0])),
            api_version: Some(string_of(&parts[1])),
            project: None,
            version: None,
        }
    } else {
        return Err(AppError::InvalidInput(parse_error(&s)));
    };
    if q.kind.as_str().is_empty() {
        return Err(AppError::InvalidInput(parse_error(&s)));
    }
    Ok(q)
}

/// `a`, then `c`, then `b` lacks `x` when neither part does and `c` is another character.
proof fn lemma_joined_lacks(a: Seq<char>, c: char, b: Seq<char>, x: char)
    requires
        !a.contains(x),
        !b.contains(x),
        c != x,
    ensures
        !(a + seq![c] + b).contains(x),
{
    let s = a + seq![c] + b;
    if s.contains(x) {
        let k = choose|k: int| 0 <= k < s.len() && s[k] == x;
        if k < a.len() {
            assert(a[k] == x);
        } else if k > a.len() {
            assert(b[k - a.len() - 1] == x);
        }
    }
}

proof fn lemma_no_slash(s: Seq<char>)
    requires
        !s.contains('/'),
    ensures
        split_by(s, sep_fn(Sep::Char('/'))) == seq![s],
{
    assert forall|i: int| 0 <= i < s.len() implies !sep_fn(Sep::Char('/'))(#[trigger] s[i]) by {
        if s[i] == '/' {
            assert(s.contains('/'));
        }
    }
    crate::text::lemma_split_by_no_sep(s, sep_fn(Sep::Char('/')));
}

/// The path forms of a kind string ask for what they spell: `Kind`; `Kind.group`;
/// `version/Kind`, in the core (empty) group; and `group/version/Kind`; for a non-empty
/// kind without `.`, and parts without `/` or `:`.
pub proof fn lemma_kind_forms_parse(kind: Seq<char>, group: Seq<char>, version: Seq<char>)
    requires
        kind.len() > 0,
        !kind.contains('.'),
        !kind.contains('/'),
        !kind.contains(':'),
        !group.contains('/'),
        !group.contains(':'),
        !version.contains('/'),
        !version.contains(':'),
    ensures
        parse_kind_form(kind) == Some(query_of(kind, None, None)),
        parse_kind_form(kind + seq!['.'] + group) == Some(query_of(kind, Some(group), None)),
        parse_kind_form(version + seq!['/'] + kind) == Some(
            query_of(kind, Some(Seq::empty()), Some(version)),
        ),
        parse_kind_form(group + seq!['/'] + version + seq!['/'] + kind) == Some(
            query_of(kind, Some(group), Some(version)),
        ),
{
    let slash = sep_fn(Sep::Char('/'));
    assert(slash('/'));
    // Kind
    lemma_find_char_absent(kind, ':');
    lemma_no_slash(kind);
    lemma_find_char_absent(kind, '.');
    // Kind.group
    let dotted = kind + seq!['.'] + group;
    lemma_joined_lacks(kind, '.', group, ':');
    lemma_joined_lacks(kind, '.', group, '/');
    lemma_find_char_absent(dotted, ':');
    lemma_no_slash(dotted);
    lemma_split_once_at(kind, '.', group);
    // version/Kind
    let core = version + seq!['/'] + kind;
    lemma_joined_lacks(version, '/', kind, ':');
    lemma_find_char_absent(core, ':');
    lemma_no_slash(version);
    crate::text::lemma_split_by_at_sep(version, '/', kind, slash);
    assert(seq![version] + seq![kind] =~= seq![version, kind]);
    // group/version/Kind
    let gv = group + seq!['/'] + version;
    let full = gv + seq!['/'] + kind;
    lemma_joined_lacks(group, '/', version, ':');
    lemma_joined_lacks(gv, '/', kind, ':');
    lemma_find_char_absent(full, ':');
    lemma_no_slash(group);
    crate::text::lemma_split_by_at_sep(group, '/', version, slash);
    crate::text::lemma_split_by_at_sep(gv, '/', kind, slash);
    assert(seq![group] + seq![version] + seq![kind] =~= seq![group, version, kind]);
}

/// Splitting a joined group/version gives back the group and the version, for a group
/// without `/` (and, in the core group, a version without `/`).
pub proof fn lemma_split_group_version(group: Seq<char>, version: Seq<char>)
    requires
        !group.contains('/'),
        group.len() == 0 ==> !version.contains('/'),
    ensures
        split_api_version_of(group_version_of(group, version)) == (group, version),
{
    if group.len() == 0 {
        lemma_find_char_absent(version, '/');
        assert(group =~= Seq::<char>::empty());
    } else {
        lemma_split_once_at(group, '/', version);
    }
}

/// Outer white space does not matter to a kind input: what `parse_kind_input` gives
/// depends on the trimmed input alone, and trimming the trimmed input changes nothing,
/// so `input` and `input.trim()` parse alike.
pub proof fn lemma_kind_input_trimmed(input: Seq<char>)
    ensures
        trim(trim(input)) == trim(input),
        parse_kind_form(trim(trim(input))) == parse_kind_form(trim(input)),
{
    crate::text::lemma_trim_idempotent(input);
}

fn parse_error(s: &Vec<char>) -> (r: String)
    ensures
        r@ == parse_error_message(s@),
{
    let mut out = "cannot parse kind '".to_owned();
    push_all(&mut out, s);
    push_all(&mut out, &chars_of("'"));
    out
}

// ---------------------------------------------------------------- API version priority

/// `s` without leading `v` characters.
pub open spec fn strip_v(s: Seq<char>) -> Seq<char> {
    crate::db::strip_v(s)
}

/// Index of the first character of `s` that is not an ASCII digit (or its length).
pub open spec fn digit_prefix_len(s: Seq<char>) -> int
    decreases s.len(),
{
    if s.len() == 0 {
        0
    } else if is_digit(s[0]) {
        1 + digit_prefix_len(s.drop_first())
    } else {
        0
    }
}

pub open spec fn parse_or_zero(s: Seq<char>) -> u64 {
    match parse_u64(s) {
        Some(n) => n,
        None => 0,
    }
}

/// Kubernetes API version priority key: `(stage, major, 0, stage number)` where stage is
/// 3 for GA, 2 for beta, 1 for alpha, 0 otherwise.
pub open spec fn api_version_priority_of(v: Seq<char>) -> (u8, u64, u8, u64) {
    let rest = strip_v(v);
    let n = digit_prefix_len(rest);
    let major = parse_or_zero(rest.take(n));
    let tail = rest.skip(n);
    if tail.len() == 0 {
        (3, major, 0, 0)
    } else if tail.len() >= 4 && tail.take(4) == "beta"@ {
        (2, major, 0, parse_or_zero(tail.skip(4)))
    } else if tail.len() >= 5 && tail.take(5) == "alpha"@ {
        (1, major, 0, parse_or_zero(tail.skip(5)))
    } else {
        (0, major, 0, 0)
    }
}

/// Lexicographic order of priority tuples.
pub open spec fn priority_lt(a: (u8, u64, u8, u64), b: (u8, u64, u8, u64)) -> bool {
    if a.0 != b.0 {
        a.0 < b.0
    } else if a.1 != b.1 {
        a.1 < b.1
    } else if a.2 != b.2 {
        a.2 < b.2
    } else {
        a.3 < b.3
    }
}

fn starts_with_at(v: &Vec<char>, at: usize, word: &str) -> (r: bool)
    requires
        at <= v.len(),
    ensures
        r == (v@.len() - at >= word@.len() && v@.skip(at as int).take(word@.len() as int)
            == word@),
{
    let w = chars_of(word);
    if v.len() - at < w.len() {
        return false;
    }
    let mut k: usize = 0;
    while k < w.len()
        invariant
            k <= w.len(),
            w@ == word@,
            at + w.len() <= v.len(),
            forall|j: int| 0 <= j < k ==> v@[at + j] == w@[j],
        decreases w.len() - k,
    {
        if v[at + k] != w[k] {
            assert(v@.skip(at as int).take(w.len() as int)[k as int] != w@[k as int]);
            return false;
        }
        k = k + 1;
    }
    assert(v@.skip(at as int).take(w.len() as int) =~= w@);
    true
}

/// Kubernetes API version priority: GA > beta > alpha, higher number first.
pub fn api_version_priority(v: &str) -> (r: (u8, u64, u8, u64))
    ensures
        r == api_version_priority_of(v@),
{
    let chars = chars_of(v);
    let mut start: usize = 0;
    assert(v@.skip(0) =~= v@);
    while start < chars.len() && chars[start] == 'v'
        invariant
            start <= chars.len(),
            chars@ == v@,
            strip_v(v@) == strip_v(v@.skip(start as int)),
        decreases chars.len() - start,
    {
        assert(v@.skip(start as int).drop_first() =~= v@.skip(start + 1));
        start = start + 1;
    }
    let rest = slice_chars(&chars, start, chars.len());
    assert(rest@ =~= v@.skip(start as int));
    let mut num_end: usize = 0;
    assert(rest@.skip(0) =~= rest@);
    while num_end < rest.len() && is_digit_char(rest[num_end])
        invariant
            num_end <= rest.len(),
            digit_prefix_len(rest@) == num_end + digit_prefix_len(rest@.skip(num_end as int)),
        decreases rest.len() - num_end,
    {
        assert(rest@.skip(num_end as int).drop_first() =~= rest@.skip(num_end + 1));
        num_end = num_end + 1;
    }
    assert(digit_prefix_len(rest@) == num_end);
    let major = match parse_u64_chars(&slice_chars(&rest, 0, num_end)) {
        Some(n) => n,
        None => 0,
    };
    assert(rest@.subrange(0, num_end as int) =~= rest@.take(num_end as int));
    if num_end == rest.len() {
        assert(rest@.skip(num_end as int).len() == 0);
        return (3, major, 0, 0);
    }
    let ghost tail = rest@.skip(num_end as int);
    if starts_with_at(&rest, num_end, "beta") {
        proof { reveal_strlit("beta"); }
        let n = parse_u64_chars(&slice_chars(&rest, num_end + 4, rest.len()));
        assert(rest@.subrange(num_end + 4, rest.len() as int) =~= tail.skip(4));
        return (2, major, 0, match n {
            Some(n) => n,
            None => 0,
        });
    }
    proof { reveal_strlit("beta"); }
    if starts_with_at(&rest, num_end, "alpha") {
        proof { reveal_strlit("alpha"); }
        let n = parse_u64_chars(&slice_chars(&rest, num_end + 5, rest.len()));
        assert(rest@.subrange(num_end + 5, rest.len() as int) =~= tail.skip(5));
        return (1, major, 0, match n {
            Some(n) => n,
            None => 0,
        });
    }
    proof { reveal_strlit("alpha"); }
    (0, major, 0, 0)
}

fn priority_less(a: (u8, u64, u8, u64), b: (u8, u64, u8, u64)) -> (r: bool)
    ensures
        r == priority_lt(a, b),
{
    if a.0 != b.0 {
        a.0 < b.0
    } else if a.1 != b.1 {
        a.1 < b.1
    } else if a.2 != b.2 {
        a.2 < b.2
    } else {
        a.3 < b.3
    }
}

// ---------------------------------------------------------------- ranking

/// `a` ranks strictly before `b`: pinned first, then the newer project version, then the
/// higher API version priority.
pub open spec fn rank_lt(a: KindRef, b: KindRef) -> bool {
    if a.pinned != b.pinned {
        a.pinned
    } else if version_key_of(a.version@) != version_key_of(b.version@) {
        crate::text::seq_u64_lt(version_key_of(b.version@), version_key_of(a.version@))
    } else {
        priority_lt(
            api_version_priority_of(b.api_version@),
            api_version_priority_of(a.api_version@),
        )
    }
}

pub open spec fn rank_lt_fn() -> spec_fn(KindRef, KindRef) -> bool {
    |a: KindRef, b: KindRef| rank_lt(a, b)
}

/// Whether `a` ranks strictly before `b`.
pub fn rank_before(a: &KindRef, b: &KindRef) -> (r: bool)
    ensures
        r == rank_lt(*a, *b),
{
    if a.pinned != b.pinned {
        return a.pinned;
    }
    let ka = version_key(a.version.as_str());
    let kb = version_key(b.version.as_str());
    let lt_ba = crate::text::u64_seq_lt(&kb, &ka);
    let lt_ab = crate::text::u64_seq_lt(&ka, &kb);
    if lt_ba || lt_ab {
        proof { crate::text::lemma_seq_u64_lt_irreflexive(ka@); }
        return lt_ba;
    }
    proof { crate::text::lemma_seq_u64_lt_total(ka@, kb@); }
    priority_less(api_version_priority(b.api_version.as_str()), api_version_priority(a.api_version.as_str()))
}

/// Sort: pinned first, newest project version, then API version priority (v2 > v1 > v1beta1).
pub fn rank_cmp(a: &KindRef, b: &KindRef) -> (r: std::cmp::Ordering)
    ensures
        r == std::cmp::Ordering::Less <==> rank_lt(*a, *b),
        r == std::cmp::Ordering::Greater <==> !rank_lt(*a, *b) && rank_lt(*b, *a),
{
    if rank_before(a, b) {
        std::cmp::Ordering::Less
    } else if rank_before(b, a) {
        std::cmp::Ordering::Greater
    } else {
        std::cmp::Ordering::Equal
    }
}

/// Candidates in rank order, best first; equally ranked ones keep their order.
pub fn rank_sort(refs: Vec<KindRef>) -> (r: Vec<KindRef>)
    ensures
        r@ == sort_stable(refs@, rank_lt_fn()),
{
    let ghost lt = rank_lt_fn();
    let mut rest = refs;
    let mut out: Vec<KindRef> = Vec::new();
    let ghost input = rest@;
    assert(input.len() == rest.len());
    let mut i: usize = 0;
    while rest.len() > 0
        invariant
            input.len() == i + rest@.len(),
            input.len() <= usize::MAX,
            rest@ == input.skip(i as int),
            lt == rank_lt_fn(),
            out@ == sort_stable(input.take(i as int), lt),
        decreases rest.len(),
    {
        let x = rest.remove(0);
        let mut j: usize = 0;
        while j < out.len() && !rank_before(&x, &out[j])
            invariant
                j <= out.len(),
                forall|k: int| 0 <= k < j ==> !lt(x, #[trigger] out@[k]),
                lt == rank_lt_fn(),
            decreases out.len() - j,
        {
            j = j + 1;
        }
        proof {
            lemma_insert_stable_at(out@, x, lt, j as int);
            let t = input.take(i + 1);
            assert(t.drop_last() =~= input.take(i as int));
            assert(t.last() == x);
            assert(input.skip(i + 1) =~= input.skip(i as int).remove(0));
        }
        out.insert(j, x);
        i = i + 1;
    }
    assert(input.take(i as int) =~= input);
    out
}

/// Two different integer sequences are ordered one way or the other.
proof fn lemma_seq_u64_lt_connected(a: Seq<u64>, b: Seq<u64>)
    ensures
        a != b ==> crate::text::seq_u64_lt(a, b) || crate::text::seq_u64_lt(b, a),
{
    if !crate::text::seq_u64_lt(a, b) && !crate::text::seq_u64_lt(b, a) {
        crate::text::lemma_seq_u64_lt_total(a, b);
    }
}

/// The ranking is a strict weak order: candidates tie exactly when they agree on pinning,
/// on the version key and on the API version priority.
pub proof fn lemma_rank_order()
    ensures
        strict_weak_order(rank_lt_fn()),
{
    let lt = rank_lt_fn();
    assert forall|a: KindRef| !#[trigger] lt(a, a) by {
        crate::text::lemma_seq_u64_lt_irreflexive(version_key_of(a.version@));
    }
    assert forall|a: KindRef, b: KindRef, c: KindRef|
        #![trigger lt(a, b), lt(b, c)]
        lt(a, b) && lt(b, c) implies lt(a, c) by {
        let ka = version_key_of(a.version@);
        let kb = version_key_of(b.version@);
        let kc = version_key_of(c.version@);
        crate::text::lemma_seq_u64_lt_irreflexive(ka);
        if crate::text::seq_u64_lt(kb, ka) && crate::text::seq_u64_lt(kc, kb) {
            crate::text::lemma_seq_u64_lt_transitive(kc, kb, ka);
        }
    }
    assert forall|a: KindRef, b: KindRef, c: KindRef|
        #![trigger lt(a, b), lt(b, c)]
        !lt(a, b) && !lt(b, a) && !lt(b, c) && !lt(c, b) implies !lt(a, c) && !lt(c, a) by {
        let ka = version_key_of(a.version@);
        let kb = version_key_of(b.version@);
        let kc = version_key_of(c.version@);
        lemma_seq_u64_lt_connected(ka, kb);
        lemma_seq_u64_lt_connected(kb, kc);
        crate::text::lemma_seq_u64_lt_irreflexive(ka);
    }
}

/// Resolution lists candidates best first: the ranked list holds exactly the given
/// candidates, and no candidate ranks strictly before one listed ahead of it.
pub proof fn lemma_rank_sort_ranked(refs: Seq<KindRef>)
    ensures
        sort_stable(refs, rank_lt_fn()).to_multiset() == refs.to_multiset(),
        sorted_by(sort_stable(refs, rank_lt_fn()), rank_lt_fn()),
{
    lemma_rank_order();
    lemma_sort_stable_multiset(refs, rank_lt_fn());
    lemma_sort_stable_sorted(refs, rank_lt_fn());
}

/// The singular form to retry with when a plural kind (`pods`) found nothing: the kind
/// without its final `s`, when it is longer than three bytes and ends in `s`.
pub open spec fn singular_of(q: KindQueryV) -> Option<KindQueryV> {
    if byte_len(q.kind) > 3 && q.kind.len() > 0 && q.kind.last() == 's' {
        Some(KindQueryV { kind: q.kind.drop_last(), ..q })
    } else {
        None
    }
}

/// The query to run again when `q` matched no kind ("pods" -> "Pod" matching is
/// case-insensitive in the index), or `None` when no retry applies.
pub fn plural_fallback(q: &KindQuery) -> (r: Option<KindQuery>)
    ensures
        match (r, singular_of(q@)) {
            (Some(a), Some(b)) => a@ == b,
            (None, None) => true,
            _ => false,
        },
{
    let k = chars_of(q.kind.as_str());
    if byte_len_exceeds(&k, 3) && k.len() > 0 && k[k.len() - 1] == 's' {
        let singular = slice_chars(&k, 0, k.len() - 1);
        assert(singular@ =~= q.kind@.drop_last());
        Some(
            KindQuery {
                kind: string_of(&singular),
                group: copy_opt(&q.group),
                api_version: copy_opt(&q.api_version),
                project: copy_opt(&q.project),
                version: copy_opt(&q.version),
            },
        )
    } else {
        None
    }
}

// ---------------------------------------------------------------- picking one candidate

/// The (project, group) a candidate belongs to.
pub open spec fn origin(r: KindRef) -> (Seq<char>, Seq<char>) {
    (r.project@, r.api_group@)
}

/// All candidates come from the same project and group.
pub open spec fn single_origin(refs: Seq<KindRef>) -> bool {
    forall|i: int| 0 <= i < refs.len() ==> origin(#[trigger] refs[i]) == origin(refs[0])
}

/// `origin` of some element before position `n`.
pub open spec fn origin_seen(refs: Seq<KindRef>, n: int, o: (Seq<char>, Seq<char>)) -> bool {
    exists|k: int| 0 <= k < n && origin(#[trigger] refs[k]) == o
}

/// The first candidate of each (project, group), in order.
pub open spec fn first_per_origin(refs: Seq<KindRef>) -> Seq<KindRef>
    decreases refs.len(),
{
    if refs.len() == 0 {
        refs
    } else {
        let d = first_per_origin(refs.drop_last());
        if origin_seen(refs, refs.len() - 1, origin(refs.last())) {
            d
        } else {
            d.push(refs.last())
        }
    }
}

/// Pick one candidate or return `Ambiguous` when candidates span different groups/projects.
pub fn pick(input: &str, refs: Vec<KindRef>) -> (r: Result<KindRef, AppError>)
    ensures
        refs@.len() == 0 ==> (r matches Err(e) && is_not_found(
            e,
            "kind '"@ + input@ + "' not in index"@,
        )),
        refs@.len() > 0 && single_origin(refs@) ==> r == Ok::<KindRef, AppError>(refs@[0]),
        refs@.len() > 0 && !single_origin(refs@) ==> (r matches Err(
            AppError::Ambiguous { input: i, candidates: c },
        ) && i@ == input@ && c@ == first_per_origin(refs@)),
{
    if refs.len() == 0 {
        let mut msg = "kind '".to_owned();
        push_all(&mut msg, &chars_of(input));
        push_all(&mut msg, &chars_of("' not in index"));
        return Err(AppError::NotFound(msg));
    }
    let mut same = true;
    let mut i: usize = 1;
    while i < refs.len()
        invariant
            1 <= i <= refs.len(),
            same == (forall|k: int| 0 <= k < i ==> origin(#[trigger] refs@[k]) == origin(refs@[0])),
        decreases refs.len() - i,
    {
        if !(refs[i].project == refs[0].project && refs[i].api_group == refs[0].api_group) {
            same = false;
        }
        i = i + 1;
    }
    if same {
        let mut refs = refs;
        return Ok(refs.remove(0));
    }
    let ghost all = refs@;
    let mut rest = refs;
    let mut seen: Vec<(String, String)> = Vec::new();
    let mut out: Vec<KindRef> = Vec::new();
    let mut i: usize = 0;
    while rest.len() > 0
        invariant
            all.len() == i + rest@.len(),
            all.len() <= usize::MAX,
            rest@ == all.skip(i as int),
            seen@.len() == i,
            forall|k: int| 0 <= k < i ==> (#[trigger] seen@[k].0@, seen@[k].1@) == origin(all[k]),
            out@ == first_per_origin(all.take(i as int)),
        decreases rest.len(),
    {
        let x = rest.remove(0);
        let mut found = false;
        let mut k: usize = 0;
        while k < seen.len()
            invariant
                k <= seen@.len(),
                seen@.len() == i,
                i < all.len(),
                x == all[i as int],
                forall|m: int| 0 <= m < i ==> (#[trigger] seen@[m].0@, seen@[m].1@) == origin(
                    all[m],
                ),
                found == origin_seen(all, k as int, origin(x)),
            decreases seen.len() - k,
        {
            if seen[k].0 == x.project && seen[k].1 == x.api_group {
                found = true;
            }
            proof {
                if found && !origin_seen(all, k as int, origin(x)) {
                    assert(origin(all[k as int]) == origin(x));
                }
                if origin_seen(all, k + 1, origin(x)) && !found {
                    let w = choose|w: int| 0 <= w < k + 1 && origin(#[trigger] all[w]) == origin(x);
                    assert(w < k);
                }
            }
            k = k + 1;
        }
        proof {
            let t = all.take(i + 1);
            assert(t.drop_last() =~= all.take(i as int));
            assert(t.last() == x);
            assert(origin_seen(t, i as int, origin(x)) == origin_seen(all, i as int, origin(x))) by {
                if origin_seen(t, i as int, origin(x)) {
                    let w = choose|w: int| 0 <= w < i && origin(#[trigger] t[w]) == origin(x);
                    assert(all[w] == t[w]);
                }
                if origin_seen(all, i as int, origin(x)) {
                    let w = choose|w: int| 0 <= w < i && origin(#[trigger] all[w]) == origin(x);
                    assert(all[w] == t[w]);
                }
            }
            assert(all.skip(i + 1) =~= all.skip(i as int).remove(0));
        }
        seen.push((x.project.clone(), x.api_group.clone()));
        if !found {
            out.push(x);
        }
        i = i + 1;
    }
    assert(all.take(i as int) =~= all);
    Err(AppError::Ambiguous { input: input.to_owned(), candidates: out })
}

/// An ambiguous answer offers one candidate per (project, group): the offered candidates
/// have pairwise different origins, each is one of the matches, and every origin among
/// the matches is offered (by its best-ranked match, the first in the list).
pub proof fn lemma_first_per_origin(refs: Seq<KindRef>)
    ensures
        forall|i: int, j: int|
            0 <= i < j < first_per_origin(refs).len() ==> origin(#[trigger] first_per_origin(refs)[i])
                != origin(#[trigger] first_per_origin(refs)[j]),
        forall|i: int|
            0 <= i < first_per_origin(refs).len() ==> refs.contains(#[trigger] first_per_origin(refs)[i]),
        forall|k: int|
            0 <= k < refs.len() ==> exists|i: int|
                0 <= i < first_per_origin(refs).len() && #[trigger] origin(first_per_origin(refs)[i])
                    == origin(#[trigger] refs[k]),
    decreases refs.len(),
{
    if refs.len() > 0 {
        let t = refs.drop_last();
        lemma_first_per_origin(t);
        let d = first_per_origin(t);
        let x = refs.last();
        let n = refs.len() - 1;
        let r = first_per_origin(refs);
        assert forall|i: int| 0 <= i < d.len() implies refs.contains(#[trigger] d[i]) by {
            assert(t.contains(d[i]));
            let k = choose|k: int| 0 <= k < t.len() && t[k] == d[i];
            assert(refs[k] == d[i]);
        }
        if origin_seen(refs, n, origin(x)) {
            assert(r == d);
            assert forall|k: int| 0 <= k < refs.len() implies exists|i: int|
                0 <= i < r.len() && #[trigger] origin(r[i]) == origin(#[trigger] refs[k]) by {
                if k < n {
                    assert(refs[k] == t[k]);
                } else {
                    let w = choose|w: int| 0 <= w < n && origin(#[trigger] refs[w]) == origin(x);
                    assert(refs[w] == t[w]);
                    let i = choose|i: int| 0 <= i < d.len() && #[trigger] origin(d[i]) == origin(#[trigger] t[w]);
                    assert(origin(r[i]) == origin(refs[k]));
                }
            }
        } else {
            assert(r == d.push(x));
            assert forall|i: int, j: int| 0 <= i < j < r.len() implies origin(#[trigger] r[i]) != origin(
                #[trigger] r[j],
            ) by {
                assert(r[i] == d[i]);
                if j == d.len() {
                    assert(t.contains(d[i]));
                    let k = choose|k: int| 0 <= k < t.len() && t[k] == d[i];
                    assert(refs[k] == t[k]);
                    if origin(d[i]) == origin(x) {
                        assert(origin_seen(refs, n, origin(x)));
                    }
                } else {
                    assert(r[j] == d[j]);
                }
            }
            assert forall|i: int| 0 <= i < r.len() implies refs.contains(#[trigger] r[i]) by {
                if i == d.len() {
                    assert(refs[n] == x);
                } else {
                    assert(r[i] == d[i]);
                }
            }
            assert forall|k: int| 0 <= k < refs.len() implies exists|i: int|
                0 <= i < r.len() && #[trigger] origin(r[i]) == origin(#[trigger] refs[k]) by {
                if k < n {
                    assert(refs[k] == t[k]);
                    let i = choose|i: int| 0 <= i < d.len() && #[trigger] origin(d[i]) == origin(#[trigger] t[k]);
                    assert(r[i] == d[i]);
                } else {
                    assert(r[d.len() as int] == x);
                }
            }
        }
    }
}

// ---------------------------------------------------------------- stored schemas

/// What zstd decodes from a buffer: the content of its frames, or `None` when the buffer
/// is not valid zstd data.
pub uninterp spec fn zstd_decoded(data: Seq<u8>) -> Option<Seq<u8>>;

/// `zstd::stream::decode_all` on an in-memory buffer. Reading a slice cannot fail, so the
/// call fails exactly when the data is not valid zstd; the error's text is passed on.
#[verifier::external_body]
fn zstd_decode_all(data: &[u8]) -> (r: Result<Vec<u8>, String>)
    ensures
        match r {
            Ok(v) => zstd_decoded(data@) == Some(v@),
            Err(_) => zstd_decoded(data@) is None,
        },
{
    match zstd::stream::decode_all(data) {
        Ok(v) => Ok(v),
        Err(e) => Err(e.to_string()),
    }
}

/// The JSON text of kind `kind_id`'s schema from its stored zstd blob (`None` when the
/// index has no such kind).
pub fn decode_schema(kind_id: i64, blob: Option<Vec<u8>>) -> (r: Result<Vec<u8>, AppError>)
    ensures
        blob is None ==> (r matches Err(e) && is_not_found(
            e,
            "kind id "@ + crate::json::int_decimal(kind_id as int),
        )),
        blob matches Some(b) ==> match zstd_decoded(b@) {
            Some(d) => r matches Ok(v) && v@ == d,
            None => r matches Err(AppError::Internal(_)),
        },
{
    match blob {
        None => {
            let mut msg = "kind id ".to_owned();
            push_all(&mut msg, &crate::json::integer_text(kind_id));
            Err(AppError::NotFound(msg))
        },
        Some(b) => match zstd_decode_all(b.as_slice()) {
            Ok(v) => Ok(v),
            Err(m) => Err(AppError::Internal(m)),
        },
    }
}

/// The schema of kind `kind_id` from its stored blob: decompressed, then read as JSON
/// (`None` blob: the kind does not exist).
pub fn load_schema(kind_id: i64, blob: Option<Vec<u8>>) -> (r: Result<Json, AppError>)
    ensures
        blob is None ==> (r matches Err(e) && is_not_found(
            e,
            "kind id "@ + crate::json::int_decimal(kind_id as int),
        )),
        blob matches Some(b) ==> match zstd_decoded(b@) {
            Some(d) => match json_of_bytes(d) {
                Ok(j) => r matches Ok(v) && v@ == j,
                Err(m) => r matches Err(AppError::Internal(s)) && s@ == m,
            },
            None => r matches Err(AppError::Internal(_)),
        },
{
    let bytes = match decode_schema(kind_id, blob) {
        Ok(b) => b,
        Err(e) => return Err(e),
    };
    match parse_json_bytes(bytes.as_slice()) {
        Ok(v) => Ok(v),
        Err(m) => Err(AppError::Internal(m)),
    }
}

// ---------------------------------------------------------------- schema cache

#[verifier::external_type_specification]
#[verifier::external_body]
#[verifier::reject_recursive_types(K)]
#[verifier::reject_recursive_types(V)]
#[verifier::reject_recursive_types(S)]
pub struct ExLruCache<K, V, S>(LruCache<K, V, S>);

#[verifier::external_type_specification]
#[verifier::external_body]
pub struct ExLruHasher(lru::DefaultHasher);

/// The entries of an LRU cache of schemas, most recently used first: (kind id, schema).
pub uninterp spec fn lru_schemas(c: LruCache<i64, Arc<Json>>) -> Seq<(i64, JsonV)>;

/// The capacity an LRU cache of schemas was made with.
pub uninterp spec fn lru_schema_cap(c: LruCache<i64, Arc<Json>>) -> nat;

/// Position of the entry of `id`.
pub open spec fn id_position(s: Seq<(i64, JsonV)>, id: i64) -> Option<int>
    decreases s.len(),
{
    if s.len() == 0 {
        None
    } else if s[0].0 == id {
        Some(0)
    } else {
        match id_position(s.drop_first(), id) {
            Some(i) => Some(i + 1),
            None => None,
        }
    }
}

/// The schema cached for `id`.
pub open spec fn cached(s: Seq<(i64, JsonV)>, id: i64) -> Option<JsonV> {
    match id_position(s, id) {
        Some(i) => Some(s[i].1),
        None => None,
    }
}

/// The entries after a lookup of `id`: a found entry becomes the most recently used.
pub open spec fn after_get(s: Seq<(i64, JsonV)>, id: i64) -> Seq<(i64, JsonV)> {
    match id_position(s, id) {
        Some(i) => seq![s[i]] + s.remove(i),
        None => s,
    }
}

/// The entries after storing `v` for `id`: an existing entry is replaced, otherwise the
/// least recently used entry makes room when the cache is full; either way the new entry
/// is the most recently used.
pub open spec fn after_put(s: Seq<(i64, JsonV)>, id: i64, v: JsonV, cap: nat) -> Seq<(i64, JsonV)> {
    match id_position(s, id) {
        Some(i) => seq![(id, v)] + s.remove(i),
        None => if s.len() == cap {
            seq![(id, v)] + s.drop_last()
        } else {
            seq![(id, v)] + s
        },
    }
}

/// Largest capacity a cache is made with: its table is allocated up front, and a huge
/// capacity would make that allocation fail.
pub const MAX_CACHE_CAPACITY: usize = 65536;

/// `LruCache::new`: an empty cache holding at most `cap` entries (its table allocated
/// for `cap` entries).
#[verifier::external_body]
fn lru_schema_new(cap: usize) -> (r: LruCache<i64, Arc<Json>>)
    requires
        1 <= cap <= MAX_CACHE_CAPACITY,
    ensures
        lru_schemas(r) == Seq::<(i64, JsonV)>::empty(),
        lru_schema_cap(r) == cap,
{
    LruCache::new(NonZeroUsize::new(cap).unwrap_or(NonZeroUsize::MIN))
}

/// `LruCache::get`: the cached schema of `id` (a shared handle to it), which becomes the
/// most recently used entry.
#[verifier::external_body]
fn lru_schema_get(c: &mut LruCache<i64, Arc<Json>>, id: i64) -> (r: Option<Arc<Json>>)
    ensures
        lru_schema_cap(*final(c)) == lru_schema_cap(*old(c)),
        lru_schemas(*final(c)) == after_get(lru_schemas(*old(c)), id),
        match r {
            Some(v) => cached(lru_schemas(*old(c)), id) == Some(v@),
            None => cached(lru_schemas(*old(c)), id) is None,
        },
{
    c.get(&id).cloned()
}

/// `LruCache::put`: stores `v` for `id` (see `after_put`).
#[verifier::external_body]
fn lru_schema_put(c: &mut LruCache<i64, Arc<Json>>, id: i64, v: Arc<Json>)
    ensures
        lru_schema_cap(*final(c)) == lru_schema_cap(*old(c)),
        lru_schemas(*final(c)) == after_put(lru_schemas(*old(c)), id, v@, lru_schema_cap(*old(c))),
{
    c.put(id, v);
}

/// `LruCache::clear`: drops every entry.
#[verifier::external_body]
fn lru_schema_clear(c: &mut LruCache<i64, Arc<Json>>)
    ensures
        lru_schema_cap(*final(c)) == lru_schema_cap(*old(c)),
        lru_schemas(*final(c)) == Seq::<(i64, JsonV)>::empty(),
{
    c.clear();
}

/// No kind id has two entries.
pub open spec fn distinct_ids(s: Seq<(i64, JsonV)>) -> bool {
    forall|i: int, j: int| 0 <= i < j < s.len() ==> s[i].0 != s[j].0
}

/// Decoded schemas by kind id, least recently used dropped first.
pub struct SchemaCache {
    inner: LruCache<i64, Arc<Json>>,
}

impl SchemaCache {
    /// The cached schemas, most recently used first.
    pub closed spec fn entries(&self) -> Seq<(i64, JsonV)> {
        lru_schemas(self.inner)
    }

    /// How many schemas the cache holds at most.
    pub closed spec fn capacity(&self) -> nat {
        lru_schema_cap(self.inner)
    }

    /// At least one entry fits, entries never exceed the capacity, and ids are distinct.
    pub open spec fn wf(&self) -> bool {
        &&& self.capacity() >= 1
        &&& self.entries().len() <= self.capacity()
        &&& distinct_ids(self.entries())
    }

    /// An empty cache of at most `cap` schemas (at least one).
    pub fn new(cap: usize) -> (r: SchemaCache)
        requires
            cap <= MAX_CACHE_CAPACITY,
        ensures
            r.wf(),
            r.entries().len() == 0,
            r.capacity() == if cap < 1 {
                1
            } else {
                cap as nat
            },
    {
        let c = if cap < 1 {
            1
        } else {
            cap
        };
        SchemaCache { inner: lru_schema_new(c) }
    }

    /// The cached schema of kind `kind_id`, which becomes the most recently used.
    pub fn get(&mut self, kind_id: i64) -> (r: Option<Arc<Json>>)
        requires
            old(self).wf(),
        ensures
            final(self).wf(),
            final(self).capacity() == old(self).capacity(),
            final(self).entries() == after_get(old(self).entries(), kind_id),
            match r {
                Some(v) => cached(old(self).entries(), kind_id) == Some(v@),
                None => cached(old(self).entries(), kind_id) is None,
            },
    {
        let r = lru_schema_get(&mut self.inner, kind_id);
        proof {
            lemma_after_get_wf(old(self).entries(), kind_id);
        }
        r
    }

    /// Stores the decoded schema of kind `kind_id`.
    pub fn put(&mut self, kind_id: i64, schema: Arc<Json>)
        requires
            old(self).wf(),
        ensures
            final(self).wf(),
            final(self).capacity() == old(self).capacity(),
            final(self).entries() == after_put(old(self).entries(), kind_id, schema@, old(self).capacity()),
    {
        let ghost v = schema@;
        lru_schema_put(&mut self.inner, kind_id, schema);
        proof {
            lemma_after_put_wf(old(self).entries(), kind_id, v, old(self).capacity());
        }
    }

    /// Drops everything (kind ids are not stable across index builds).
    pub fn clear(&mut self)
        requires
            old(self).wf(),
        ensures
            final(self).wf(),
            final(self).capacity() == old(self).capacity(),
            final(self).entries().len() == 0,
    {
        lru_schema_clear(&mut self.inner);
    }
}

impl Default for SchemaCache {
    fn default() -> (r: SchemaCache)
        ensures
            r.wf(),
            r.entries().len() == 0,
            r.capacity() == 64,
    {
        SchemaCache::new(64)
    }
}

proof fn lemma_id_position(s: Seq<(i64, JsonV)>, id: i64)
    ensures
        match id_position(s, id) {
            Some(i) => 0 <= i < s.len() && s[i].0 == id && forall|j: int| 0 <= j < i ==> s[j].0 != id,
            None => forall|j: int| 0 <= j < s.len() ==> s[j].0 != id,
        },
    decreases s.len(),
{
    if s.len() > 0 && s[0].0 != id {
        lemma_id_position(s.drop_first(), id);
        let t = s.drop_first();
        assert forall|j: int| 1 <= j < s.len() implies s[j] == t[j - 1] by {}
    }
}

proof fn lemma_after_get_wf(s: Seq<(i64, JsonV)>, id: i64)
    requires
        distinct_ids(s),
    ensures
        distinct_ids(after_get(s, id)),
        after_get(s, id).len() == s.len(),
{
    lemma_id_position(s, id);
    if let Some(i) = id_position(s, id) {
        let r = seq![s[i]] + s.remove(i);
        assert forall|a: int, b: int| 0 <= a < b < r.len() implies r[a].0 != r[b].0 by {
            let pa = if a == 0 { i } else if a - 1 < i { a - 1 } else { a };
            let pb = if b - 1 < i { b - 1 } else { b };
            assert(r[a] == s[pa]);
            assert(r[b] == s[pb]);
        }
    }
}

proof fn lemma_after_put_wf(s: Seq<(i64, JsonV)>, id: i64, v: JsonV, cap: nat)
    requires
        distinct_ids(s),
        s.len() <= cap,
        cap >= 1,
    ensures
        distinct_ids(after_put(s, id, v, cap)),
        after_put(s, id, v, cap).len() <= cap,
{
    lemma_id_position(s, id);
    let r = after_put(s, id, v, cap);
    match id_position(s, id) {
        Some(i) => {
            assert forall|a: int, b: int| 0 <= a < b < r.len() implies r[a].0 != r[b].0 by {
                let pb = if b - 1 < i { b - 1 } else { b };
                assert(r[b] == s[pb]);
                if a > 0 {
                    let pa = if a - 1 < i { a - 1 } else { a };
                    assert(r[a] == s[pa]);
                }
            }
        },
        None => {
            let t = if s.len() == cap { s.drop_last() } else { s };
            assert(r == seq![(id, v)] + t);
            assert forall|a: int, b: int| 0 <= a < b < r.len() implies r[a].0 != r[b].0 by {
                assert(r[b] == t[b - 1]);
                assert(t[b - 1] == s[b - 1]);
                if a > 0 {
                    assert(r[a] == t[a - 1]);
                    assert(t[a - 1] == s[a - 1]);
                }
            }
        },
    }
}

/// A read gives back what a write wrote: right after storing a schema for a kind id,
/// the cache holds exactly that schema for it; any other id keeps its schema unless it
/// was the least recently used entry of a full cache, which is dropped.
pub proof fn lemma_put_then_cached(s: Seq<(i64, JsonV)>, id: i64, v: JsonV, cap: nat, other: i64)
    requires
        distinct_ids(s),
        s.len() <= cap,
        cap >= 1,
        other != id,
    ensures
        cached(after_put(s, id, v, cap), id) == Some(v),
        cached(after_put(s, id, v, cap), other) == cached(s, other) || (cached(
            after_put(s, id, v, cap),
            other,
        ) is None && id_position(s, id) is None && s.len() == cap && s.last().0 == other),
{
    let r = after_put(s, id, v, cap);
    lemma_id_position(r, id);
    lemma_id_position(r, other);
    lemma_id_position(s, other);
    lemma_id_position(s, id);
    lemma_after_put_wf(s, id, v, cap);
    assert(r[0] == (id, v));
    match id_position(s, other) {
        Some(k) => {
            let t = match id_position(s, id) {
                Some(i) => s.remove(i),
                None => if s.len() == cap { s.drop_last() } else { s },
            };
            assert(r == seq![(id, v)] + t);
            let present = exists|m: int| 0 <= m < t.len() && t[m] == s[k];
            if present {
                let m = choose|m: int| 0 <= m < t.len() && t[m] == s[k];
                assert(r[m + 1] == s[k]);
                match id_position(r, other) {
                    Some(p) => {
                        if p != m + 1 {
                            assert(r[p].0 == other);
                        }
                    },
                    None => {},
                }
            } else {
                match id_position(s, id) {
                    Some(i) => {
                        if k < i {
                            assert(t[k] == s[k]);
                        } else {
                            assert(k != i);
                            assert(t[k - 1] == s[k]);
                        }
                    },
                    None => {
                        if s.len() == cap {
                            if k < s.len() - 1 {
                                assert(t[k] == s[k]);
                            }
                        } else {
                            assert(t[k] == s[k]);
                        }
                    },
                }
            }
        },
        None => {
            match id_position(r, other) {
                Some(p) => {
                    assert(p > 0);
                    let t = match id_position(s, id) {
                        Some(i) => s.remove(i),
                        None => if s.len() == cap { s.drop_last() } else { s },
                    };
                    assert(r == seq![(id, v)] + t);
                    assert(r[p] == t[p - 1]);
                    match id_position(s, id) {
                        Some(i) => {
                            if p - 1 < i {
                                assert(t[p - 1] == s[p - 1]);
                            } else {
                                assert(t[p - 1] == s[p]);
                            }
                        },
                        None => {
                            assert(t[p - 1] == s[p - 1]);
                        },
                    }
                },
                None => {},
            }
        },
    }
}

} // verus!
