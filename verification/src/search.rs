//! Shaping of search results: result limits, paging through a document, choosing one
//! document per matching section, field de-duplication, annotation query planning and
//! the version order of projects.

use vstd::prelude::*;

use crate::db::{version_key, version_key_of};
use crate::db::{fts_query, fts_terms, like_escape, like_prefix};
use crate::error::{is_invalid_input, is_not_found, AppError};
use crate::json::{int_decimal, integer_text, json_of_bytes, parse_json_bytes, str_eq, Json, JsonV};
use crate::schema::store::opt_view;
use crate::sort::{
    best_index, lemma_best_index, lemma_sort_stable_multiset, lemma_sort_stable_sorted, sort_stable,
    sorted_by, strict_weak_order,
};
use crate::text::{
    byte_len, byte_len_exceeds, chars_of, has_char, join, lemma_len_le_byte_len, trim, trim_chars, lemma_seq_u64_lt_irreflexive, lower, lower_char, lower_seq,
    split_words, words, lemma_seq_u64_lt_total, lemma_seq_u64_lt_transitive,
    push_all, seq_u64_lt, slice_chars, string_of, u64_seq_lt,
};

verus! {

/// Largest number of results any search returns.
pub const MAX_LIMIT: usize = 20;

/// Characters of document text per page.
pub const DOC_PAGE_CHARS: usize = 8192;

/// The requested limit (or the default) clamped to `1..=MAX_LIMIT`.
pub open spec fn clamp_limit_of(limit: Option<usize>, default: usize) -> usize {
    let n = match limit {
        Some(n) => n,
        None => default,
    };
    if n < 1 {
        1
    } else if n > MAX_LIMIT {
        MAX_LIMIT
    } else {
        n
    }
}

/// The number of results to return for a requested limit and a search's default.
pub fn clamp_limit(limit: Option<usize>, default: usize) -> (r: usize)
    ensures
        r == clamp_limit_of(limit, default),
        1 <= r <= MAX_LIMIT,
{
    let n = match limit {
        Some(n) => n,
        None => default,
    };
    if n < 1 {
        1
    } else if n > MAX_LIMIT {
        MAX_LIMIT
    } else {
        n
    }
}

// ---------------------------------------------------------------- document pages

/// What the index stores for one documentation section.
#[derive(Debug)]
pub struct DocRow {
    pub project: String,
    pub version: String,
    pub title: String,
    pub section_path: String,
    pub url: String,
    pub license: String,
    pub text: String,
}

/// One page of a documentation section's text.
#[derive(Debug)]
pub struct DocPage {
    pub doc_id: i64,
    pub project: String,
    pub version: String,
    pub title: String,
    pub section_path: String,
    pub url: String,
    pub license: String,
    /// Character offset of the page in the section text.
    pub offset: usize,
    /// Characters in the whole section text.
    pub total_chars: usize,
    /// Where the next page starts, when there is one.
    pub next_offset: Option<usize>,
    pub text: String,
}

/// Where a page starts: the requested offset (default 0), at most the text's length.
pub open spec fn page_start(total: nat, offset: Option<usize>) -> nat {
    let o: nat = match offset {
        Some(o) => o as nat,
        None => 0,
    };
    if o < total {
        o
    } else {
        total
    }
}

/// Where a page starting at `start` ends.
pub open spec fn page_end(total: nat, start: nat) -> nat {
    if start + DOC_PAGE_CHARS < total {
        (start + DOC_PAGE_CHARS) as nat
    } else {
        total
    }
}

/// The page of section `doc_id` at `offset`, given the stored row (`None` when the index
/// has no such section).
pub fn get_doc(doc_id: i64, row: Option<DocRow>, offset: Option<usize>) -> (r: Result<
    DocPage,
    AppError,
>)
    ensures
        row is None ==> (r matches Err(e) && is_not_found(e, "doc "@ + int_decimal(doc_id as int))),
        row matches Some(d) ==> (r matches Ok(p) && ({
            let total = d.text@.len();
            let start = page_start(total, offset);
            let end = page_end(total, start);
            &&& p.doc_id == doc_id
            &&& p.project == d.project
            &&& p.version == d.version
            &&& p.title == d.title
            &&& p.section_path == d.section_path
            &&& p.url == d.url
            &&& p.license == d.license
            &&& p.total_chars == total
            &&& p.offset == start
            &&& p.text@ == d.text@.subrange(start as int, end as int)
            &&& p.next_offset == if end < total {
                Some(end as usize)
            } else {
                None
            }
        })),
{
    match row {
        None => {
            let mut msg = "doc ".to_owned();
            push_all(&mut msg, &integer_text(doc_id));
            Err(AppError::NotFound(msg))
        },
        Some(d) => {
            let chars = chars_of(d.text.as_str());
            let total = chars.len();
            let start = match offset {
                Some(o) => if o < total {
                    o
                } else {
                    total
                },
                None => 0,
            };
            let end = if total - start > DOC_PAGE_CHARS {
                start + DOC_PAGE_CHARS
            } else {
                total
            };
            let text = string_of(&slice_chars(&chars, start, end));
            let next_offset = if end < total {
                Some(end)
            } else {
                None
            };
            Ok(
                DocPage {
                    doc_id,
                    project: d.project,
                    version: d.version,
                    title: d.title,
                    section_path: d.section_path,
                    url: d.url,
                    license: d.license,
                    offset: start,
                    total_chars: total,
                    next_offset,
                    text,
                },
            )
        },
    }
}

// ---------------------------------------------------------------- newest first

/// `a` is a newer version than `b` by the natural version order.
pub open spec fn newer(a: Seq<char>, b: Seq<char>) -> bool {
    seq_u64_lt(version_key_of(b), version_key_of(a))
}

/// "Newer than" is a strict weak order on version strings: versions with equal keys are
/// tied.
pub proof fn lemma_newer_order()
    ensures
        strict_weak_order(|a: Seq<char>, b: Seq<char>| newer(a, b)),
{
    let lt = |a: Seq<char>, b: Seq<char>| newer(a, b);
    assert forall|a: Seq<char>| !#[trigger] lt(a, a) by {
        lemma_seq_u64_lt_irreflexive(version_key_of(a));
    }
    assert forall|a: Seq<char>, b: Seq<char>, c: Seq<char>|
        #![trigger lt(a, b), lt(b, c)]
        lt(a, b) && lt(b, c) implies lt(a, c) by {
        lemma_seq_u64_lt_transitive(version_key_of(c), version_key_of(b), version_key_of(a));
    }
    assert forall|a: Seq<char>, b: Seq<char>, c: Seq<char>|
        #![trigger lt(a, b), lt(b, c)]
        !lt(a, b) && !lt(b, a) && !lt(b, c) && !lt(c, b) implies !lt(a, c) && !lt(c, a) by {
        lemma_seq_u64_lt_total(version_key_of(a), version_key_of(b));
        lemma_seq_u64_lt_total(version_key_of(b), version_key_of(c));
    }
}

/// Whether version `a` is newer than version `b`.
pub fn is_newer(a: &str, b: &str) -> (r: bool)
    ensures
        r == newer(a@, b@),
{
    let ka = version_key(a);
    let kb = version_key(b);
    u64_seq_lt(&kb, &ka)
}

// ---------------------------------------------------------------- documentation hits

/// One indexed copy of a matching documentation section (the same text can be indexed
/// for several versions of a project).
#[derive(Debug)]
pub struct DocCandidate {
    pub doc_id: i64,
    pub project: String,
    pub version: String,
    pub url: String,
    pub license: String,
}

/// Candidates ordered newest version first.
pub open spec fn newer_doc_fn() -> spec_fn(DocCandidate, DocCandidate) -> bool {
    |a: DocCandidate, b: DocCandidate| newer(a.version@, b.version@)
}

pub proof fn lemma_newer_doc_order()
    ensures
        strict_weak_order(newer_doc_fn()),
{
    lemma_newer_order();
    let lt = newer_doc_fn();
    let v = |a: Seq<char>, b: Seq<char>| newer(a, b);
    assert forall|a: DocCandidate| !#[trigger] lt(a, a) by {
        assert(!v(a.version@, a.version@));
    }
    assert forall|a: DocCandidate, b: DocCandidate, c: DocCandidate|
        #![trigger lt(a, b), lt(b, c)]
        lt(a, b) && lt(b, c) implies lt(a, c) by {
        assert(v(a.version@, b.version@) && v(b.version@, c.version@));
    }
    assert forall|a: DocCandidate, b: DocCandidate, c: DocCandidate|
        #![trigger lt(a, b), lt(b, c)]
        !lt(a, b) && !lt(b, a) && !lt(b, c) && !lt(c, b) implies !lt(a, c) && !lt(c, a) by {
        assert(v(a.version@, b.version@) == lt(a, b));
        assert(v(b.version@, a.version@) == lt(b, a));
        assert(v(b.version@, c.version@) == lt(b, c));
        assert(v(c.version@, b.version@) == lt(c, b));
    }
}

/// Position of the candidate shown for a section: the first of those with the newest
/// version, which is where a stable newest-first sort puts it.
pub fn newest_candidate(cands: &Vec<DocCandidate>) -> (r: Option<usize>)
    ensures
        cands@.len() == 0 <==> r is None,
        r matches Some(i) ==> i == best_index(cands@, newer_doc_fn()) && i < cands@.len() && cands@[i as int]
            == sort_stable(cands@, newer_doc_fn())[0],
{
    if cands.len() == 0 {
        return None;
    }
    let ghost lt = newer_doc_fn();
    let mut b: usize = 0;
    let mut i: usize = 1;
    while i < cands.len()
        invariant
            1 <= i <= cands.len(),
            lt == newer_doc_fn(),
            b < i,
            b as int == best_index(cands@.take(i as int), lt),
        decreases cands.len() - i,
    {
        proof {
            let t = cands@.take(i + 1);
            assert(t.drop_last() =~= cands@.take(i as int));
            assert(t.last() == cands@[i as int]);
            assert(t[b as int] == cands@[b as int]);
        }
        if is_newer(cands[i].version.as_str(), cands[b].version.as_str()) {
            b = i;
        }
        i = i + 1;
    }
    proof {
        assert(cands@.take(cands@.len() as int) =~= cands@);
        lemma_newer_doc_order();
        lemma_best_index(cands@, lt);
    }
    Some(b)
}

/// The hits shown for ranked matching sections: for each section in rank order that has
/// candidates, its candidate with the newest version, until `limit` hits (at least one)
/// are chosen. Each hit is (section position, candidate position).
pub open spec fn doc_selection(sections: Seq<Seq<DocCandidate>>, limit: usize) -> Seq<(usize, usize)>
    decreases sections.len(),
{
    if sections.len() == 0 {
        Seq::empty()
    } else {
        let prev = doc_selection(sections.drop_last(), limit);
        let last = sections.last();
        if prev.len() >= hit_cap(limit) || last.len() == 0 {
            prev
        } else {
            prev.push(
                ((sections.len() - 1) as usize, best_index(last, newer_doc_fn()) as usize),
            )
        }
    }
}

/// How many hits a search stops at: it stops once a chosen hit reaches the limit, so it
/// keeps at least one.
pub open spec fn hit_cap(limit: usize) -> nat {
    if limit == 0 {
        1
    } else {
        limit as nat
    }
}

/// Once a selection is full, later sections change nothing.
proof fn lemma_doc_selection_full(sections: Seq<Seq<DocCandidate>>, n: int, limit: usize)
    requires
        0 <= n <= sections.len(),
        doc_selection(sections.take(n), limit).len() >= hit_cap(limit),
    ensures
        doc_selection(sections, limit) == doc_selection(sections.take(n), limit),
    decreases sections.len() - n,
{
    if n < sections.len() {
        assert(sections.take(n + 1).drop_last() =~= sections.take(n));
        lemma_doc_selection_full(sections, n + 1, limit);
    } else {
        assert(sections.take(n) =~= sections);
    }
}

/// Chooses the documentation hits for ranked sections and their candidates (see
/// `doc_selection`).
pub fn select_doc_hits(sections: &Vec<Vec<DocCandidate>>, limit: usize) -> (r: Vec<(usize, usize)>)
    ensures
        r@ == doc_selection(sections@.map_values(|v: Vec<DocCandidate>| v@), limit),
{
    let cap: usize = if limit == 0 {
        1
    } else {
        limit
    };
    let ghost all = sections@.map_values(|v: Vec<DocCandidate>| v@);
    let mut out: Vec<(usize, usize)> = Vec::new();
    let mut i: usize = 0;
    while i < sections.len() && out.len() < cap
        invariant
            i <= sections.len(),
            all == sections@.map_values(|v: Vec<DocCandidate>| v@),
            cap as nat == hit_cap(limit),
            out@ == doc_selection(all.take(i as int), limit),
        decreases sections.len() - i,
    {
        proof {
            let t = all.take(i + 1);
            assert(t.drop_last() =~= all.take(i as int));
            assert(t.last() == sections@[i as int]@);
        }
        match newest_candidate(&sections[i]) {
            Some(j) => {
                out.push((i, j));
            },
            None => {},
        }
        i = i + 1;
    }
    proof {
        if i < sections.len() {
            lemma_doc_selection_full(all, i as int, limit);
        } else {
            assert(all.take(i as int) =~= all);
        }
    }
    out
}

// ---------------------------------------------------------------- field hits

/// One field of an indexed kind that matched a field search.
#[derive(Debug)]
pub struct FieldHit {
    pub project: String,
    pub version: String,
    pub api_group: String,
    pub api_version: String,
    pub kind: String,
    pub path: String,
    pub type_: String,
    pub required: bool,
    pub description: Option<String>,
}

/// `s` without its trailing `*` characters.
pub open spec fn trim_stars(s: Seq<char>) -> Seq<char>
    decreases s.len(),
{
    if s.len() > 0 && s.last() == '*' {
        trim_stars(s.drop_last())
    } else {
        s
    }
}

/// A query word as a path fragment: trailing `*`s removed, ASCII lower case.
pub open spec fn path_term(w: Seq<char>) -> Seq<char> {
    lower_seq(trim_stars(w))
}

/// Fragments of fewer than three bytes match too much to be worth a path search.
pub open spec fn long_enough(t: Seq<char>) -> bool {
    t.len() > 0 && byte_len(t) >= 3
}

/// The path fragments of a list of words, in order.
pub open spec fn path_terms_from(ws: Seq<Seq<char>>) -> Seq<Seq<char>>
    decreases ws.len(),
{
    if ws.len() == 0 {
        Seq::empty()
    } else {
        let prev = path_terms_from(ws.drop_last());
        let t = path_term(ws.last());
        if long_enough(t) {
            prev.push(t)
        } else {
            prev
        }
    }
}

/// The fragments that a field search also looks for, case-insensitively, inside dotted
/// field paths (so `topologySpread*` finds `spec.topologySpreadConstraints`).
pub open spec fn path_terms_of(query: Seq<char>) -> Seq<Seq<char>> {
    path_terms_from(words(query))
}

/// One word turned into a path fragment.
fn path_term_chars(w: &Vec<char>) -> (r: Vec<char>)
    ensures
        r@ == path_term(w@),
{
    let mut n: usize = w.len();
    assert(w@.take(n as int) =~= w@);
    while n > 0 && w[n - 1] == '*'
        invariant
            n <= w.len(),
            trim_stars(w@) == trim_stars(w@.take(n as int)),
        decreases n,
    {
        proof {
            assert(w@.take(n as int).drop_last() =~= w@.take(n - 1));
        }
        n = n - 1;
    }
    assert(n > 0 ==> w@.take(n as int).last() == w@[n - 1]);
    let ghost t = w@.take(n as int);
    assert(trim_stars(w@) == t);
    let mut r: Vec<char> = Vec::new();
    let mut i: usize = 0;
    while i < n
        invariant
            i <= n <= w.len(),
            t == w@.take(n as int),
            r@ == lower_seq(t.take(i as int)),
        decreases n - i,
    {
        r.push(lower_char(w[i]));
        i = i + 1;
        assert(r@ =~= lower_seq(t.take(i as int)));
    }
    assert(t.take(n as int) =~= t);
    r
}

/// The path fragments of a field search query (see `path_terms_of`).
pub fn path_terms(query: &str) -> (r: Vec<String>)
    ensures
        r@.map_values(|s: String| s@) == path_terms_of(query@),
{
    let ws = split_words(&chars_of(query));
    let ghost all = words(query@);
    let mut out: Vec<String> = Vec::new();
    let mut i: usize = 0;
    while i < ws.len()
        invariant
            i <= ws.len(),
            ws.deep_view() == all,
            all == words(query@),
            out@.map_values(|s: String| s@) == path_terms_from(all.take(i as int)),
        decreases ws.len() - i,
    {
        let t = path_term_chars(&ws[i]);
        proof {
            let p = all.take(i + 1);
            assert(p.drop_last() =~= all.take(i as int));
            assert(p.last() == ws@[i as int]@);
        }
        let ghost before = out@;
        if t.len() > 0 && byte_len_exceeds(&t, 2) {
            out.push(string_of(&t));
            assert(out@.map_values(|s: String| s@) =~= before.map_values(|s: String| s@).push(t@));
        }
        i = i + 1;
    }
    assert(all.take(ws.len() as int) =~= all);
    out
}

/// Two hits name the same field of the same kind (in any version).
pub open spec fn same_field(a: FieldHit, b: FieldHit) -> bool {
    &&& a.project@ == b.project@
    &&& a.api_group@ == b.api_group@
    &&& a.kind@ == b.kind@
    &&& a.path@ == b.path@
}

pub open spec fn has_same_field(s: Seq<FieldHit>, h: FieldHit) -> bool {
    exists|i: int| 0 <= i < s.len() && same_field(#[trigger] s[i], h)
}

/// Ranked hits with later copies of an already-listed field dropped, up to `limit`
/// hits (at least one).
pub open spec fn distinct_fields(rows: Seq<FieldHit>, limit: usize) -> Seq<FieldHit>
    decreases rows.len(),
{
    if rows.len() == 0 {
        Seq::empty()
    } else {
        let prev = distinct_fields(rows.drop_last(), limit);
        if prev.len() >= hit_cap(limit) || has_same_field(prev, rows.last()) {
            prev
        } else {
            prev.push(rows.last())
        }
    }
}

proof fn lemma_distinct_fields_full(rows: Seq<FieldHit>, n: int, limit: usize)
    requires
        0 <= n <= rows.len(),
        distinct_fields(rows.take(n), limit).len() >= hit_cap(limit),
    ensures
        distinct_fields(rows, limit) == distinct_fields(rows.take(n), limit),
    decreases rows.len() - n,
{
    if n < rows.len() {
        assert(rows.take(n + 1).drop_last() =~= rows.take(n));
        lemma_distinct_fields_full(rows, n + 1, limit);
    } else {
        assert(rows.take(n) =~= rows);
    }
}

fn same_field_exec(a: &FieldHit, b: &FieldHit) -> (r: bool)
    ensures
        r == same_field(*a, *b),
{
    str_eq(a.project.as_str(), b.project.as_str()) && str_eq(a.api_group.as_str(), b.api_group.as_str())
        && str_eq(a.kind.as_str(), b.kind.as_str()) && str_eq(a.path.as_str(), b.path.as_str())
}

/// Drops later copies of the same field (one kind's field indexed for several versions),
/// keeping the higher-ranked one, and stops at `limit` hits (see `distinct_fields`).
pub fn dedupe_fields(rows: Vec<FieldHit>, limit: usize) -> (r: Vec<FieldHit>)
    ensures
        r@ == distinct_fields(rows@, limit),
{
    let cap: usize = if limit == 0 {
        1
    } else {
        limit
    };
    let ghost input = rows@;
    let mut rest = rows;
    assert(input.len() == rest.len());
    let mut out: Vec<FieldHit> = Vec::new();
    let mut i: usize = 0;
    while rest.len() > 0 && out.len() < cap
        invariant
            input.len() == i + rest@.len(),
            input.len() <= usize::MAX,
            rest@ == input.skip(i as int),
            cap as nat == hit_cap(limit),
            out@ == distinct_fields(input.take(i as int), limit),
        decreases rest.len(),
    {
        let x = rest.remove(0);
        proof {
            let t = input.take(i + 1);
            assert(t.drop_last() =~= input.take(i as int));
            assert(t.last() == x);
            assert(input.skip(i + 1) =~= input.skip(i as int).remove(0));
        }
        let mut j: usize = 0;
        let mut dup = false;
        while j < out.len() && !dup
            invariant
                j <= out.len(),
                dup ==> has_same_field(out@, x),
                !dup ==> forall|k: int| 0 <= k < j ==> !same_field(#[trigger] out@[k], x),
            decreases out.len() - j + if dup { 0int } else { 1int },
        {
            if same_field_exec(&out[j], &x) {
                dup = true;
            } else {
                j = j + 1;
            }
        }
        if !dup {
            out.push(x);
        }
        i = i + 1;
    }
    proof {
        if rest.len() > 0 {
            lemma_distinct_fields_full(input, i as int, limit);
        } else {
            assert(input.take(i as int) =~= input);
        }
    }
    out
}

// ---------------------------------------------------------------- annotations

/// One entry of the annotation, label and taint catalog.
#[derive(Debug)]
pub struct AnnotationHit {
    pub provider: String,
    pub key: String,
    pub type_: String,
    /// The kinds the key applies to, as stored (a JSON list; `null` when unreadable).
    pub applies_to: Json,
    pub value_type: Option<String>,
    pub allowed_values: Option<Json>,
    pub example: Option<String>,
    pub description: String,
    pub doc_url: String,
    pub since: Option<String>,
    pub deprecated: Option<String>,
    pub source: String,
}

/// A stored JSON column (the UTF-8 bytes of its text) as a value: what serde_json reads
/// from it, or `null` when it does not read.
pub fn stored_json(text: &[u8]) -> (r: Json)
    ensures
        r@ == match json_of_bytes(text@) {
            Ok(v) => v,
            Err(_) => JsonV::Null,
        },
{
    match parse_json_bytes(text) {
        Ok(v) => v,
        Err(_) => Json::Null,
    }
}

/// An optional stored JSON column as a value: none when the column is empty or its text
/// does not read as JSON.
pub fn stored_json_opt(text: Option<&[u8]>) -> (r: Option<Json>)
    ensures
        match text {
            None => r is None,
            Some(t) => match json_of_bytes(t@) {
                Ok(v) => r matches Some(j) && j@ == v,
                Err(_) => r is None,
            },
        },
{
    match text {
        None => None,
        Some(t) => match parse_json_bytes(t) {
            Ok(v) => Some(v),
            Err(_) => None,
        },
    }
}

/// How the catalog is searched.
#[derive(Debug)]
pub enum AnnotationQuery {
    /// Keys starting with a prefix: the LIKE pattern (escaped, ending in `%`).
    KeyPrefix(String),
    /// Full-text search: the FTS5 expression.
    Words(String),
}

/// A validated annotation search.
#[derive(Debug)]
pub struct AnnotationSearch {
    pub query: AnnotationQuery,
    /// LIKE pattern that finds the kind in the stored `applies_to` list.
    pub kind_filter: Option<String>,
}

/// A trimmed query or key must have 1 to 256 bytes.
pub open spec fn length_ok(q: Seq<char>) -> bool {
    q.len() > 0 && byte_len(q) <= 256
}

/// A query that looks like a key (`alb.ingress.kubernetes.io/`, `cloud.google.com/neg`)
/// is a key prefix; anything else is a list of words.
pub open spec fn key_like(q: Seq<char>) -> bool {
    q.contains('/') || (q.contains('.') && !q.contains(' '))
}

/// `k` without `%`, `_` and `"`.
pub open spec fn without_pattern_chars(k: Seq<char>) -> Seq<char>
    decreases k.len(),
{
    if k.len() == 0 {
        Seq::empty()
    } else {
        without_pattern_chars(k.drop_last()) + if k.last() == '%' || k.last() == '_' || k.last()
            == '"' {
            Seq::empty()
        } else {
            seq![k.last()]
        }
    }
}

/// The LIKE pattern matching a quoted kind inside a JSON list.
pub open spec fn kind_filter_of(kind: Option<&str>) -> Option<Seq<char>> {
    match kind {
        Some(k) => Some(seq!['%', '"'] + without_pattern_chars(k@) + seq!['"', '%']),
        None => None,
    }
}

fn kind_filter(kind: Option<&str>) -> (r: Option<String>)
    ensures
        opt_view(r) == kind_filter_of(kind),
{
    match kind {
        None => None,
        Some(k) => {
            let cs = chars_of(k);
            let mut out: Vec<char> = Vec::new();
            out.push('%');
            out.push('"');
            let mut i: usize = 0;
            while i < cs.len()
                invariant
                    i <= cs.len(),
                    cs@ == k@,
                    out@ == seq!['%', '"'] + without_pattern_chars(cs@.take(i as int)),
                decreases cs.len() - i,
            {
                let c = cs[i];
                proof {
                    let t = cs@.take(i + 1);
                    assert(t.drop_last() =~= cs@.take(i as int));
                    assert(t.last() == c);
                }
                if !(c == '%' || c == '_' || c == '"') {
                    out.push(c);
                }
                i = i + 1;
                assert(out@ =~= seq!['%', '"'] + without_pattern_chars(cs@.take(i as int)));
            }
            assert(cs@.take(cs.len() as int) =~= cs@);
            out.push('"');
            out.push('%');
            assert(out@ =~= seq!['%', '"'] + without_pattern_chars(k@) + seq!['"', '%']);
            Some(string_of(&out))
        },
    }
}

/// Plans a catalog search: the query is trimmed and must have 1 to 256 bytes; a key-like
/// query searches key prefixes, any other one the catalog's text; `kind` restricts the
/// results to entries that apply to it (or to every kind).
pub fn plan_annotation_search(query: &str, kind: Option<&str>) -> (r: Result<
    AnnotationSearch,
    AppError,
>)
    ensures
        !length_ok(trim(query@)) ==> (r matches Err(e) && is_invalid_input(
            e,
            "query must be 1..256 chars"@,
        )),
        length_ok(trim(query@)) && key_like(trim(query@)) ==> (r matches Ok(s)
            && s.query matches AnnotationQuery::KeyPrefix(p) && p@ == like_escape(
            trim(query@),
        ).push('%') && opt_view(s.kind_filter) == kind_filter_of(kind)),
        length_ok(trim(query@)) && !key_like(trim(query@)) && fts_terms(trim(query@)).len() == 0
            ==> (r matches Err(e) && is_invalid_input(e, "query has no searchable terms"@)),
        length_ok(trim(query@)) && !key_like(trim(query@)) && fts_terms(trim(query@)).len() > 0
            ==> (r matches Ok(s) && s.query matches AnnotationQuery::Words(m) && m@ == join(
            fts_terms(trim(query@)),
            seq![' '],
        ) && opt_view(s.kind_filter) == kind_filter_of(kind)),
{
    let q = trim_chars(&chars_of(query));
    if q.len() == 0 || byte_len_exceeds(&q, 256) {
        return Err(AppError::InvalidInput("query must be 1..256 chars".to_owned()));
    }
    let filter = kind_filter(kind);
    let text = string_of(&q);
    if has_char(&q, '/') || (has_char(&q, '.') && !has_char(&q, ' ')) {
        let pattern = like_prefix(text.as_str());
        Ok(AnnotationSearch { query: AnnotationQuery::KeyPrefix(pattern), kind_filter: filter })
    } else {
        proof {
            lemma_len_le_byte_len(q@);
        }
        match fts_query(text.as_str()) {
            Ok(m) => Ok(AnnotationSearch { query: AnnotationQuery::Words(m), kind_filter: filter }),
            Err(e) => Err(e),
        }
    }
}

/// The trimmed key of an exact annotation lookup, which must have 1 to 256 bytes.
pub fn check_annotation_key(key: &str) -> (r: Result<String, AppError>)
    ensures
        !length_ok(trim(key@)) ==> (r matches Err(e) && is_invalid_input(
            e,
            "key must be 1..256 chars"@,
        )),
        length_ok(trim(key@)) ==> (r matches Ok(k) && k@ == trim(key@)),
{
    let k = trim_chars(&chars_of(key));
    if k.len() == 0 || byte_len_exceeds(&k, 256) {
        return Err(AppError::InvalidInput("key must be 1..256 chars".to_owned()));
    }
    Ok(string_of(&k))
}

/// The entries found for an exact key, or `NotFound` with a hint when there are none.
pub fn annotations_found(key: &str, rows: Vec<AnnotationHit>) -> (r: Result<
    Vec<AnnotationHit>,
    AppError,
>)
    ensures
        rows@.len() == 0 ==> (r matches Err(e) && is_not_found(
            e,
            "annotation '"@ + key@ + "'; try search_annotations with a prefix"@,
        )),
        rows@.len() > 0 ==> r == Ok::<Vec<AnnotationHit>, AppError>(rows),
{
    if rows.len() == 0 {
        let mut msg = "annotation '".to_owned();
        push_all(&mut msg, &chars_of(key));
        push_all(&mut msg, &chars_of("'; try search_annotations with a prefix"));
        return Err(AppError::NotFound(msg));
    }
    Ok(rows)
}

// ---------------------------------------------------------------- projects and kinds

/// One indexed version of a project.
#[derive(Debug)]
pub struct VersionInfo {
    pub version: String,
    /// Built from a git tag (otherwise an unpinned snapshot).
    pub pinned: bool,
    pub source: String,
    pub stale: bool,
    pub kinds: i64,
    pub docs: i64,
}

/// An indexed project with its versions, newest first.
#[derive(Debug)]
pub struct ProjectInfo {
    pub slug: String,
    pub name: String,
    pub category: String,
    pub homepage: String,
    pub docs_license: String,
    pub versions: Vec<VersionInfo>,
}

/// One kind of a project version, as listed.
#[derive(Debug)]
pub struct KindSummary {
    pub api_group: String,
    pub api_version: String,
    pub kind: String,
    pub scope: Option<String>,
    pub description: Option<String>,
}

/// Versions ordered newest first.
pub open spec fn newer_info_fn() -> spec_fn(VersionInfo, VersionInfo) -> bool {
    |a: VersionInfo, b: VersionInfo| newer(a.version@, b.version@)
}

/// Versions newest first by the natural version order; equal versions keep their order.
pub fn sort_versions(vs: Vec<VersionInfo>) -> (r: Vec<VersionInfo>)
    ensures
        r@ == sort_stable(vs@, newer_info_fn()),
{
    let ghost lt = newer_info_fn();
    let ghost input = vs@;
    let mut rest = vs;
    assert(input.len() == rest.len());
    let mut out: Vec<VersionInfo> = Vec::new();
    let mut i: usize = 0;
    while rest.len() > 0
        invariant
            input.len() == i + rest@.len(),
            input.len() <= usize::MAX,
            rest@ == input.skip(i as int),
            lt == newer_info_fn(),
            out@ == sort_stable(input.take(i as int), lt),
        decreases rest.len(),
    {
        let x = rest.remove(0);
        let mut j: usize = 0;
        while j < out.len() && !is_newer(x.version.as_str(), out[j].version.as_str())
            invariant
                j <= out.len(),
                forall|k: int| 0 <= k < j ==> !lt(x, #[trigger] out@[k]),
                lt == newer_info_fn(),
            decreases out.len() - j,
        {
            j = j + 1;
        }
        proof {
            crate::sort::lemma_insert_stable_at(out@, x, lt, j as int);
            let t = input.take(i + 1);
            assert(t.drop_last() =~= input.take(i as int));
            assert(t.last() == x);
            assert(input.skip(i + 1) =~= input.skip(i as int).remove(0));
        }
        out.insert(j, x);
        i = i + 1;
    }
    assert(input.take(i as int) =~= input);
    out
}

impl ProjectInfo {
    /// A project with its versions put newest first.
    pub fn new(
        slug: String,
        name: String,
        category: String,
        homepage: String,
        docs_license: String,
        versions: Vec<VersionInfo>,
    ) -> (r: ProjectInfo)
        ensures
            r.slug == slug,
            r.name == name,
            r.category == category,
            r.homepage == homepage,
            r.docs_license == docs_license,
            r.versions@ == sort_stable(versions@, newer_info_fn()),
    {
        ProjectInfo { slug, name, category, homepage, docs_license, versions: sort_versions(versions) }
    }
}

/// A version row preferred to another: pinned ones first (a larger flag), then newer.
pub open spec fn preferred_fn() -> spec_fn((String, i64), (String, i64)) -> bool {
    |a: (String, i64), b: (String, i64)| a.1 > b.1 || (a.1 == b.1 && newer(a.0@, b.0@))
}

pub proof fn lemma_preferred_order()
    ensures
        strict_weak_order(preferred_fn()),
{
    lemma_newer_order();
    let lt = preferred_fn();
    let v = |a: Seq<char>, b: Seq<char>| newer(a, b);
    assert forall|a: (String, i64)| !#[trigger] lt(a, a) by {
        assert(!v(a.0@, a.0@));
    }
    assert forall|a: (String, i64), b: (String, i64), c: (String, i64)|
        #![trigger lt(a, b), lt(b, c)]
        lt(a, b) && lt(b, c) implies lt(a, c) by {
        if a.1 == b.1 && b.1 == c.1 {
            assert(v(a.0@, b.0@) && v(b.0@, c.0@));
        }
    }
    assert forall|a: (String, i64), b: (String, i64), c: (String, i64)|
        #![trigger lt(a, b), lt(b, c)]
        !lt(a, b) && !lt(b, a) && !lt(b, c) && !lt(c, b) implies !lt(a, c) && !lt(c, a) by {
        assert(a.1 == b.1 && b.1 == c.1);
        assert(!v(a.0@, b.0@) && !v(b.0@, a.0@) && !v(b.0@, c.0@) && !v(c.0@, b.0@));
    }
}

/// The version a kind listing uses when none is given: the first of the project's
/// versions after sorting pinned first, then newest (`NotFound` when the project has no
/// versions).
pub fn default_version(project: &str, versions: &Vec<(String, i64)>) -> (r: Result<String, AppError>)
    ensures
        versions@.len() == 0 ==> (r matches Err(e) && is_not_found(e, "project '"@ + project@ + "'"@)),
        versions@.len() > 0 ==> (r matches Ok(v) && v@ == sort_stable(versions@, preferred_fn())[0].0@),
{
    if versions.len() == 0 {
        let mut msg = "project '".to_owned();
        push_all(&mut msg, &chars_of(project));
        push_all(&mut msg, &chars_of("'"));
        return Err(AppError::NotFound(msg));
    }
    let ghost lt = preferred_fn();
    let mut b: usize = 0;
    let mut i: usize = 1;
    while i < versions.len()
        invariant
            1 <= i <= versions.len(),
            lt == preferred_fn(),
            b < i,
            b as int == best_index(versions@.take(i as int), lt),
        decreases versions.len() - i,
    {
        proof {
            let t = versions@.take(i + 1);
            assert(t.drop_last() =~= versions@.take(i as int));
            assert(t.last() == versions@[i as int]);
            assert(t[b as int] == versions@[b as int]);
        }
        let better = versions[i].1 > versions[b].1 || (versions[i].1 == versions[b].1 && is_newer(
            versions[i].0.as_str(),
            versions[b].0.as_str(),
        ));
        if better {
            b = i;
        }
        i = i + 1;
    }
    proof {
        assert(versions@.take(versions@.len() as int) =~= versions@);
        lemma_preferred_order();
        lemma_best_index(versions@, lt);
    }
    Ok(versions[b].0.clone())
}

// ---------------------------------------------------------------- laws

pub proof fn lemma_newer_info_order()
    ensures
        strict_weak_order(newer_info_fn()),
{
    lemma_newer_order();
    let lt = newer_info_fn();
    let v = |a: Seq<char>, b: Seq<char>| newer(a, b);
    assert forall|a: VersionInfo| !#[trigger] lt(a, a) by {
        assert(!v(a.version@, a.version@));
    }
    assert forall|a: VersionInfo, b: VersionInfo, c: VersionInfo|
        #![trigger lt(a, b), lt(b, c)]
        lt(a, b) && lt(b, c) implies lt(a, c) by {
        assert(v(a.version@, b.version@) && v(b.version@, c.version@));
    }
    assert forall|a: VersionInfo, b: VersionInfo, c: VersionInfo|
        #![trigger lt(a, b), lt(b, c)]
        !lt(a, b) && !lt(b, a) && !lt(b, c) && !lt(c, b) implies !lt(a, c) && !lt(c, a) by {
        assert(v(a.version@, b.version@) == lt(a, b));
        assert(v(b.version@, a.version@) == lt(b, a));
        assert(v(b.version@, c.version@) == lt(b, c));
        assert(v(c.version@, b.version@) == lt(c, b));
    }
}

/// A project lists its versions newest first: the sorted list holds exactly the given
/// versions and no version is newer than one listed before it.
pub proof fn lemma_versions_newest_first(vs: Seq<VersionInfo>)
    ensures
        sort_stable(vs, newer_info_fn()).to_multiset() == vs.to_multiset(),
        sorted_by(sort_stable(vs, newer_info_fn()), newer_info_fn()),
{
    lemma_newer_info_order();
    lemma_sort_stable_multiset(vs, newer_info_fn());
    lemma_sort_stable_sorted(vs, newer_info_fn());
}

/// The candidate shown for a section has the newest version among its copies, and
/// every copy listed before it is strictly older.
pub proof fn lemma_newest_candidate(cands: Seq<DocCandidate>)
    requires
        cands.len() > 0,
    ensures
        0 <= best_index(cands, newer_doc_fn()) < cands.len(),
        forall|j: int|
            0 <= j < cands.len() ==> !newer(
                #[trigger] cands[j].version@,
                cands[best_index(cands, newer_doc_fn())].version@,
            ),
        forall|j: int|
            0 <= j < best_index(cands, newer_doc_fn()) ==> newer(
                cands[best_index(cands, newer_doc_fn())].version@,
                #[trigger] cands[j].version@,
            ),
    decreases cands.len(),
{
    lemma_newer_order();
    let lt = newer_doc_fn();
    let b = best_index(cands, lt);
    if cands.len() == 1 {
        lemma_seq_u64_lt_irreflexive(version_key_of(cands[0].version@));
    } else {
        let t = cands.drop_last();
        lemma_newest_candidate(t);
        let p = best_index(t, lt);
        let x = cands.last();
        if lt(x, cands[p]) {
            assert forall|j: int| 0 <= j < cands.len() implies !newer(#[trigger] cands[j].version@, x.version@) by {
                lemma_seq_u64_lt_irreflexive(version_key_of(x.version@));
                if j < cands.len() - 1 {
                    assert(t[j] == cands[j]);
                    assert(!newer(t[j].version@, t[p].version@));
                    if newer(cands[j].version@, x.version@) {
                        lemma_seq_u64_lt_transitive(
                            version_key_of(t[p].version@),
                            version_key_of(x.version@),
                            version_key_of(cands[j].version@),
                        );
                    }
                }
            }
            assert forall|j: int| 0 <= j < cands.len() - 1 implies newer(x.version@, #[trigger] cands[j].version@) by {
                assert(t[j] == cands[j]);
                assert(!newer(t[j].version@, t[p].version@));
                if !newer(t[p].version@, t[j].version@) {
                    lemma_seq_u64_lt_total(version_key_of(t[j].version@), version_key_of(t[p].version@));
                } else {
                    lemma_seq_u64_lt_transitive(
                        version_key_of(t[j].version@),
                        version_key_of(t[p].version@),
                        version_key_of(x.version@),
                    );
                }
            }
        } else {
            assert(b == p);
            assert forall|j: int| 0 <= j < cands.len() implies !newer(#[trigger] cands[j].version@, cands[b].version@) by {
                if j < cands.len() - 1 {
                    assert(t[j] == cands[j]);
                }
            }
            assert forall|j: int| 0 <= j < b implies newer(cands[b].version@, #[trigger] cands[j].version@) by {
                assert(t[j] == cands[j]);
            }
        }
    }
}

/// Chosen hits come from distinct sections in rank order, each with candidates, and
/// there are at most as many as the limit (at least one is always allowed).
pub proof fn lemma_doc_selection_shape(sections: Seq<Seq<DocCandidate>>, limit: usize)
    requires
        sections.len() <= usize::MAX,
        forall|k: int| 0 <= k < sections.len() ==> #[trigger] sections[k].len() <= usize::MAX,
    ensures
        doc_selection(sections, limit).len() <= hit_cap(limit),
        forall|i: int|
            0 <= i < doc_selection(sections, limit).len() ==> {
                let h = #[trigger] doc_selection(sections, limit)[i];
                &&& h.0 < sections.len()
                &&& sections[h.0 as int].len() > 0
                &&& h.1 as int == best_index(sections[h.0 as int], newer_doc_fn())
            },
        forall|i: int, j: int|
            0 <= i < j < doc_selection(sections, limit).len() ==> (#[trigger] doc_selection(
                sections,
                limit,
            )[i]).0 < (#[trigger] doc_selection(sections, limit)[j]).0,
    decreases sections.len(),
{
    if sections.len() > 0 {
        let t = sections.drop_last();
        assert forall|k: int| 0 <= k < t.len() implies #[trigger] t[k].len() <= usize::MAX by {
            assert(t[k] == sections[k]);
        }
        lemma_doc_selection_shape(t, limit);
        let prev = doc_selection(t, limit);
        let last = sections.last();
        assert(last.len() <= usize::MAX);
        let r = doc_selection(sections, limit);
        assert forall|i: int| 0 <= i < prev.len() implies #[trigger] sections[prev[i].0 as int] == t[prev[i].0 as int] by {
            assert(prev[i].0 < t.len());
        }
        if !(prev.len() >= hit_cap(limit) || last.len() == 0) {
            lemma_newer_doc_order();
            lemma_best_index(last, newer_doc_fn());
            assert(r == prev.push(((sections.len() - 1) as usize, best_index(last, newer_doc_fn()) as usize)));
            assert forall|i: int| 0 <= i < r.len() implies {
                let h = #[trigger] r[i];
                &&& h.0 < sections.len()
                &&& sections[h.0 as int].len() > 0
                &&& h.1 as int == best_index(sections[h.0 as int], newer_doc_fn())
            } by {
                if i < prev.len() {
                    assert(r[i] == prev[i]);
                    assert(sections[prev[i].0 as int] == t[prev[i].0 as int]);
                }
            }
            assert forall|i: int, j: int| 0 <= i < j < r.len() implies (#[trigger] r[i]).0 < (#[trigger] r[j]).0 by {
                assert(r[i] == prev[i]);
                if j < prev.len() {
                    assert(r[j] == prev[j]);
                }
            }
        } else {
            assert(r == prev);
        }
    }
}

/// What identifies a field hit: its project, API group, kind and path.
pub open spec fn field_key(h: FieldHit) -> (Seq<char>, Seq<char>, Seq<char>, Seq<char>) {
    (h.project@, h.api_group@, h.kind@, h.path@)
}

/// One hit per field of a kind: hits are dropped only as copies of a listed hit with the
/// same project, API group, kind and path, or once the limit is reached. So every ranked
/// row's field is listed unless the list is full, and no field is listed twice; fields of
/// different kinds (or groups, projects, paths) are never merged.
pub proof fn lemma_fields_one_per_kind_and_path(rows: Seq<FieldHit>, limit: usize)
    ensures
        forall|i: int|
            0 <= i < rows.len() ==> distinct_fields(rows, limit).len() >= hit_cap(limit) || exists|j: int|
                0 <= j < distinct_fields(rows, limit).len() && field_key(#[trigger] distinct_fields(rows, limit)[j])
                    == field_key(#[trigger] rows[i]),
        forall|a: int, b: int|
            0 <= a < b < distinct_fields(rows, limit).len() ==> field_key(#[trigger] distinct_fields(rows, limit)[a])
                != field_key(#[trigger] distinct_fields(rows, limit)[b]),
    decreases rows.len(),
{
    lemma_distinct_fields_shape(rows, limit);
    let r = distinct_fields(rows, limit);
    assert forall|a: int, b: int| 0 <= a < b < r.len() implies field_key(#[trigger] r[a]) != field_key(#[trigger] r[b]) by {
        assert(!same_field(r[a], r[b]));
    }
    if rows.len() > 0 {
        let t = rows.drop_last();
        lemma_fields_one_per_kind_and_path(t, limit);
        let prev = distinct_fields(t, limit);
        let x = rows.last();
        lemma_distinct_fields_grows(rows, limit);
        assert forall|i: int| 0 <= i < rows.len() implies r.len() >= hit_cap(limit) || exists|j: int|
            0 <= j < r.len() && field_key(#[trigger] r[j]) == field_key(#[trigger] rows[i]) by {
            if r.len() < hit_cap(limit) {
                if i < rows.len() - 1 {
                    assert(rows[i] == t[i]);
                    assert(prev.len() <= r.len());
                    let j = choose|j: int| 0 <= j < prev.len() && field_key(#[trigger] prev[j]) == field_key(#[trigger] t[i]);
                    assert(r[j] == prev[j]);
                } else {
                    assert(rows[i] == x);
                    if has_same_field(prev, x) {
                        let j = choose|j: int| 0 <= j < prev.len() && same_field(#[trigger] prev[j], x);
                        assert(r[j] == prev[j]);
                        assert(field_key(r[j]) == field_key(x));
                    } else {
                        assert(r[prev.len() as int] == x);
                    }
                }
            }
        }
    }
}

/// Listing more rows only extends the hits.
proof fn lemma_distinct_fields_grows(rows: Seq<FieldHit>, limit: usize)
    requires
        rows.len() > 0,
    ensures
        distinct_fields(rows.drop_last(), limit).len() <= distinct_fields(rows, limit).len(),
        forall|j: int|
            0 <= j < distinct_fields(rows.drop_last(), limit).len() ==> #[trigger] distinct_fields(rows, limit)[j]
                == distinct_fields(rows.drop_last(), limit)[j],
{
}

/// No field is listed twice, and there are at most as many hits as the limit (at least
/// one is always allowed); every hit is one of the ranked rows.
pub proof fn lemma_distinct_fields_shape(rows: Seq<FieldHit>, limit: usize)
    ensures
        distinct_fields(rows, limit).len() <= hit_cap(limit),
        forall|i: int, j: int|
            0 <= i < j < distinct_fields(rows, limit).len() ==> !same_field(
                #[trigger] distinct_fields(rows, limit)[i],
                #[trigger] distinct_fields(rows, limit)[j],
            ),
        forall|i: int|
            0 <= i < distinct_fields(rows, limit).len() ==> rows.contains(
                #[trigger] distinct_fields(rows, limit)[i],
            ),
    decreases rows.len(),
{
    if rows.len() > 0 {
        let t = rows.drop_last();
        lemma_distinct_fields_shape(t, limit);
        let prev = distinct_fields(t, limit);
        let x = rows.last();
        let r = distinct_fields(rows, limit);
        assert forall|i: int| 0 <= i < prev.len() implies rows.contains(#[trigger] prev[i]) by {
            assert(t.contains(prev[i]));
            let k = choose|k: int| 0 <= k < t.len() && t[k] == prev[i];
            assert(rows[k] == prev[i]);
        }
        if !(prev.len() >= hit_cap(limit) || has_same_field(prev, x)) {
            assert(rows[rows.len() - 1] == x);
            assert forall|i: int, j: int| 0 <= i < j < r.len() implies !same_field(
                #[trigger] r[i],
                #[trigger] r[j],
            ) by {
                if j == r.len() - 1 {
                    assert(r[j] == x);
                    assert(r[i] == prev[i]);
                    if same_field(prev[i], x) {
                        assert(has_same_field(prev, x));
                    }
                } else {
                    assert(r[i] == prev[i] && r[j] == prev[j]);
                }
            }
        }
    }
}

/// Pages tile a section: starting at `offset`, the page ends after at most a page's worth
/// of characters and is never empty before the end, and following `next_offset` page
/// by page from any start reads the rest of the text exactly once.
pub open spec fn pages_from(text: Seq<char>, start: nat) -> Seq<char>
    decreases text.len() - start,
{
    if start >= text.len() {
        Seq::empty()
    } else {
        let end = page_end(text.len(), start);
        text.subrange(start as int, end as int) + pages_from(text, end)
    }
}

pub proof fn lemma_pages_tile(text: Seq<char>, start: nat)
    requires
        start <= text.len(),
    ensures
        pages_from(text, start) == text.skip(start as int),
        start < text.len() ==> start < page_end(text.len(), start) <= start + DOC_PAGE_CHARS,
    decreases text.len() - start,
{
    if start < text.len() {
        let end = page_end(text.len(), start);
        lemma_pages_tile(text, end);
        assert(text.subrange(start as int, end as int) + text.skip(end as int) =~= text.skip(start as int));
    } else {
        assert(text.skip(start as int) =~= Seq::<char>::empty());
    }
}

} // verus!
