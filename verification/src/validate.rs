//! Manifest validation: strict-mode schema rewriting, per-document classification and
//! the validation report.

use vstd::prelude::*;

use crate::error::{is_invalid_input, AppError};
use crate::json::{
    as_bool, as_str, get, json_of_value, jv, jv_items, jv_members, value_of_json, lemma_jv_items_index_all,
    lemma_jv_members_index_all, members_get, members_insert, Json, JsonV, Members,
};
use crate::schema::store::{opt_view, split_api_version, split_api_version_of, KindQuery, KindQueryV, KindRef};
use crate::sort::{
    lemma_insert_stable_at, lemma_sort_stable_multiset, lemma_sort_stable_sorted, sort_stable, sorted_by,
    strict_weak_order,
};
use crate::text::{byte_len, chars_of, chars_lt, push_all, string_of};

verus! {

/// Largest accepted manifest, in bytes.
pub const MAX_INPUT_BYTES: usize = 524288;

/// Most schema errors reported per document.
pub const MAX_ERRORS_PER_DOC: usize = 50;

// ---------------------------------------------------------------- strict mode

/// Member names whose object value holds schemas by name.
pub open spec fn is_schema_map_key(k: Seq<char>) -> bool {
    k == "properties"@ || k == "definitions"@ || k == "$defs"@ || k == "patternProperties"@
}

/// Member names whose value is a schema.
pub open spec fn is_schema_key(k: Seq<char>) -> bool {
    k == "items"@ || k == "additionalProperties"@ || k == "not"@
}

/// Member names whose array value holds schemas.
pub open spec fn is_schema_list_key(k: Seq<char>) -> bool {
    k == "allOf"@ || k == "anyOf"@ || k == "oneOf"@
}

/// No member before position `j` has the name of member `j`.
pub open spec fn first_of_name(m: Members, j: int) -> bool {
    forall|i: int| 0 <= i < j ==> (#[trigger] m[i]).0 != m[j].0
}

/// The node is an object schema: `type` is (or lists) `object`, or it has `properties`.
pub open spec fn is_object_schema(m: Members) -> bool {
    ||| members_get(m, "type"@) == Some(JsonV::Str("object"@))
    ||| (match members_get(m, "type"@) {
        Some(JsonV::Array(a)) => a.contains(JsonV::Str("object"@)),
        _ => false,
    })
    ||| members_get(m, "properties"@) is Some
}

/// An object schema that should reject unknown members: it lists `properties`, has no
/// `additionalProperties` and does not preserve unknown fields.
pub open spec fn closes_members(m: Members) -> bool {
    &&& is_object_schema(m)
    &&& as_bool(members_get(m, "x-kubernetes-preserve-unknown-fields"@)) != Some(true)
    &&& members_get(m, "additionalProperties"@) is None
    &&& members_get(m, "properties"@) is Some
}

/// Sets `additionalProperties: false` on object schemas that neither declare it nor
/// preserve unknown fields, throughout a schema (mirrors kubeconform `-strict`).
pub open spec fn strict_of(v: JsonV) -> JsonV
    decreases v, 0nat,
{
    match v {
        JsonV::Object(m) => {
            let t = strict_members(m, m.len());
            JsonV::Object(
                if closes_members(m) {
                    members_insert(t, "additionalProperties"@, JsonV::Bool(false))
                } else {
                    t
                },
            )
        },
        JsonV::Array(a) => JsonV::Array(strict_items(a, a.len())),
        _ => v,
    }
}

/// The first `n` members of an object schema, each nested schema made strict.
pub open spec fn strict_members(m: Members, n: nat) -> Members
    decreases m, n,
{
    if n == 0 || n > m.len() {
        Seq::empty()
    } else {
        let k = m[n - 1].0;
        let v = m[n - 1].1;
        let nv = if !first_of_name(m, n - 1) {
            v
        } else if is_schema_map_key(k) {
            match v {
                JsonV::Object(children) => JsonV::Object(strict_values(children, children.len())),
                _ => v,
            }
        } else if is_schema_key(k) {
            match v {
                JsonV::Object(_) => strict_of(v),
                _ => v,
            }
        } else if is_schema_list_key(k) {
            match v {
                JsonV::Array(children) => JsonV::Array(strict_items(children, children.len())),
                _ => v,
            }
        } else {
            v
        };
        strict_members(m, (n - 1) as nat).push((k, nv))
    }
}

/// The first `n` members with every value made strict.
pub open spec fn strict_values(m: Members, n: nat) -> Members
    decreases m, n,
{
    if n == 0 || n > m.len() {
        Seq::empty()
    } else {
        strict_values(m, (n - 1) as nat).push((m[n - 1].0, strict_of(m[n - 1].1)))
    }
}

/// The first `n` items, each made strict.
pub open spec fn strict_items(a: Seq<JsonV>, n: nat) -> Seq<JsonV>
    decreases a, n,
{
    if n == 0 || n > a.len() {
        Seq::empty()
    } else {
        strict_items(a, (n - 1) as nat).push(strict_of(a[n - 1]))
    }
}

fn is_lit(k: &String, lit: &str) -> (r: bool)
    ensures
        r == (k@ == lit@),
{
    crate::json::str_eq(k.as_str(), lit)
}

/// `strict_of` as a new value.
fn strictified(v: &Json) -> (r: Json)
    ensures
        r@ == strict_of(v@),
    decreases v, 0nat,
{
    match v {
        Json::Object(m) => {
            let closes = closes_exec(m);
            let mut t = strict_members_exec(m);
            if closes {
                crate::json::insert_member(&mut t, "additionalProperties".to_owned(), Json::Bool(false));
            }
            proof { crate::json::lemma_jv_members_len(m@); }
            Json::Object(t)
        },
        Json::Array(a) => {
            proof { crate::json::lemma_jv_items_len(a@); }
            Json::Array(strict_items_exec(a))
        },
        _ => v.duplicate(),
    }
}

fn closes_exec(m: &Vec<(String, Json)>) -> (r: bool)
    ensures
        r == closes_members(jv_members(m@)),
{
    let ghost mv = jv_members(m@);
    let ty = match crate::json::find_member(m, "type") {
        Some(i) => Some(&m[i].1),
        None => None,
    };
    let mut is_obj = match ty {
        Some(Json::Str(s)) => is_lit(s, "object"),
        _ => false,
    };
    proof { reveal_strlit("object"); }
    match ty {
        Some(Json::Array(a)) => {
            proof { lemma_jv_items_index_all(a@); }
            let mut i: usize = 0;
            let mut found = false;
            while i < a.len()
                invariant
                    i <= a.len(),
                    jv_items(a@).len() == a@.len(),
                    forall|j: int| 0 <= j < a@.len() ==> #[trigger] jv_items(a@)[j] == jv(a@[j]),
                    found == exists|j: int| 0 <= j < i && jv_items(a@)[j] == JsonV::Str("object"@),
                decreases a.len() - i,
            {
                match &a[i] {
                    Json::Str(s) => {
                        if is_lit(s, "object") {
                            found = true;
                        }
                    },
                    _ => {},
                }
                proof {
                    if found && !(exists|j: int| 0 <= j < i && jv_items(a@)[j] == JsonV::Str("object"@)) {
                        assert(jv_items(a@)[i as int] == JsonV::Str("object"@));
                    }
                }
                i = i + 1;
            }
            proof {
                if found {
                    let j = choose|j: int| 0 <= j < a@.len() && jv_items(a@)[j] == JsonV::Str("object"@);
                    assert(jv_items(a@).contains(JsonV::Str("object"@)));
                }
                if jv_items(a@).contains(JsonV::Str("object"@)) {
                    let j = choose|j: int| 0 <= j < jv_items(a@).len() && jv_items(a@)[j] == JsonV::Str("object"@);
                    assert(found);
                }
            }
            is_obj = is_obj || found;
        },
        _ => {},
    }
    let has_props = crate::json::find_member(m, "properties").is_some();
    is_obj = is_obj || has_props;
    let preserve = match crate::json::find_member(m, "x-kubernetes-preserve-unknown-fields") {
        Some(i) => match &m[i].1 {
            Json::Bool(b) => *b,
            _ => false,
        },
        None => false,
    };
    let has_ap = crate::json::find_member(m, "additionalProperties").is_some();
    is_obj && !preserve && !has_ap && has_props
}

fn strict_members_exec(m: &Vec<(String, Json)>) -> (r: Vec<(String, Json)>)
    ensures
        jv_members(r@) == strict_members(jv_members(m@), m@.len() as nat),
    decreases m, 1nat,
{
    let ghost mv = jv_members(m@);
    proof { lemma_jv_members_index_all(m@); }
    let mut r: Vec<(String, Json)> = Vec::new();
    let mut i: usize = 0;
    assert(jv_members(r@) =~= Seq::<(Seq<char>, JsonV)>::empty());
    while i < m.len()
        invariant
            i <= m.len(),
            mv == jv_members(m@),
            mv.len() == m@.len(),
            forall|j: int| 0 <= j < m@.len() ==> #[trigger] mv[j] == (m@[j].0@, jv(m@[j].1)),
            jv_members(r@) == strict_members(mv, i as nat),
        decreases m.len() - i,
    {
        let k = &m[i].0;
        let v = &m[i].1;
        let mut first = true;
        let mut j: usize = 0;
        while j < i
            invariant
                j <= i < m.len(),
                mv.len() == m@.len(),
                forall|q: int| 0 <= q < m@.len() ==> #[trigger] mv[q] == (m@[q].0@, jv(m@[q].1)),
                k == &m@[i as int].0,
                first == forall|q: int| 0 <= q < j ==> (#[trigger] mv[q]).0 != mv[i as int].0,
            decreases i - j,
        {
            assert(mv[j as int].0 == m@[j as int].0@);
            assert(mv[i as int].0 == m@[i as int].0@);
            if crate::json::str_eq(m[j].0.as_str(), k.as_str()) {
                first = false;
            }
            proof {
                if !first && (forall|q: int| 0 <= q < j ==> (#[trigger] mv[q]).0 != mv[i as int].0) {
                    assert(mv[j as int].0 == mv[i as int].0);
                }
            }
            j = j + 1;
        }
        assert(decreases_to!(m => m@[i as int].1));
        let nv = if !first {
            v.duplicate()
        } else if is_lit(k, "properties") || is_lit(k, "definitions") || is_lit(k, "$defs") || is_lit(
            k,
            "patternProperties",
        ) {
            match v {
                Json::Object(children) => {
                    proof { crate::json::lemma_jv_members_len(children@); }
                    Json::Object(strict_values_exec(children))
                },
                _ => v.duplicate(),
            }
        } else if is_lit(k, "items") || is_lit(k, "additionalProperties") || is_lit(k, "not") {
            match v {
                Json::Object(_) => strictified(v),
                _ => v.duplicate(),
            }
        } else if is_lit(k, "allOf") || is_lit(k, "anyOf") || is_lit(k, "oneOf") {
            match v {
                Json::Array(children) => {
                    proof { crate::json::lemma_jv_items_len(children@); }
                    Json::Array(strict_items_exec(children))
                },
                _ => v.duplicate(),
            }
        } else {
            v.duplicate()
        };
        crate::schema::explain::push_member(&mut r, k.clone(), nv);
        i = i + 1;
    }
    r
}

fn strict_values_exec(m: &Vec<(String, Json)>) -> (r: Vec<(String, Json)>)
    ensures
        jv_members(r@) == strict_values(jv_members(m@), m@.len() as nat),
    decreases m, 1nat,
{
    let ghost mv = jv_members(m@);
    proof { lemma_jv_members_index_all(m@); }
    let mut r: Vec<(String, Json)> = Vec::new();
    let mut i: usize = 0;
    assert(jv_members(r@) =~= Seq::<(Seq<char>, JsonV)>::empty());
    while i < m.len()
        invariant
            i <= m.len(),
            mv == jv_members(m@),
            mv.len() == m@.len(),
            forall|j: int| 0 <= j < m@.len() ==> #[trigger] mv[j] == (m@[j].0@, jv(m@[j].1)),
            jv_members(r@) == strict_values(mv, i as nat),
        decreases m.len() - i,
    {
        assert(decreases_to!(m => m@[i as int].1));
        let nv = strictified(&m[i].1);
        crate::schema::explain::push_member(&mut r, m[i].0.clone(), nv);
        i = i + 1;
    }
    r
}

fn strict_items_exec(a: &Vec<Json>) -> (r: Vec<Json>)
    ensures
        jv_items(r@) == strict_items(jv_items(a@), a@.len() as nat),
    decreases a, 1nat,
{
    let ghost av = jv_items(a@);
    proof { lemma_jv_items_index_all(a@); }
    let mut r: Vec<Json> = Vec::new();
    let mut i: usize = 0;
    assert(jv_items(r@) =~= Seq::<JsonV>::empty());
    while i < a.len()
        invariant
            i <= a.len(),
            av == jv_items(a@),
            av.len() == a@.len(),
            forall|j: int| 0 <= j < a@.len() ==> #[trigger] av[j] == jv(a@[j]),
            jv_items(r@) == strict_items(av, i as nat),
        decreases a.len() - i,
    {
        assert(decreases_to!(a => a@[i as int]));
        let nv = strictified(&a[i]);
        crate::schema::explain::push_item(&mut r, nv);
        i = i + 1;
    }
    r
}

/// Set `additionalProperties: false` on object nodes that neither declare it nor preserve
/// unknown fields (mirrors kubeconform `-strict`).
pub fn strictify(node: &mut Json)
    ensures
        final(node)@ == strict_of(old(node)@),
{
    let s = strictified(node);
    *node = s;
}

// ---------------------------------------------------------------- manifests

/// Rejects manifests larger than `MAX_INPUT_BYTES` before parsing.
pub fn check_manifest_size(input: &str) -> (r: Result<(), AppError>)
    ensures
        byte_len(input@) > MAX_INPUT_BYTES ==> (r matches Err(e) && is_invalid_input(
            e,
            "manifest larger than 524288 bytes"@,
        )),
        byte_len(input@) <= MAX_INPUT_BYTES ==> r is Ok,
{
    if crate::text::byte_len_exceeds(&chars_of(input), MAX_INPUT_BYTES) {
        return Err(AppError::InvalidInput("manifest larger than 524288 bytes".to_owned()));
    }
    Ok(())
}

/// The documents that serde-saphyr reads from a YAML stream into JSON values under the
/// budget `(max_depth, max_anchors, max_aliases, max_documents, max_nodes,
/// max_total_scalar_bytes)`, empty documents skipped, or the text of its error (without a
/// source snippet); a function of the input and the budget alone.
pub uninterp spec fn yaml_documents_of(input: Seq<char>, budget: (usize, usize, usize, usize, usize, usize)) -> Result<
    Seq<JsonV>,
    Seq<char>,
>;

/// `serde_saphyr::from_multiple_with_options` into JSON values, with the given budget and
/// no snippets in errors. Every document is counted against `max_documents`, so no more
/// than that many come back.
#[verifier::external_body]
fn yaml_documents(input: &str, budget: (usize, usize, usize, usize, usize, usize)) -> (r: Result<Vec<Json>, String>)
    ensures
        match r {
            Ok(v) => yaml_documents_of(input@, budget) == Ok::<Seq<JsonV>, Seq<char>>(jv_items(v@))
                && v@.len() <= budget.3,
            Err(e) => yaml_documents_of(input@, budget) == Err::<Seq<JsonV>, Seq<char>>(e@),
        },
{
    let mut b = serde_saphyr::Budget::default();
    (b.max_depth, b.max_anchors, b.max_aliases) = (budget.0, budget.1, budget.2);
    (b.max_documents, b.max_nodes, b.max_total_scalar_bytes) = (budget.3, budget.4, budget.5);
    let mut o = serde_saphyr::Options::default();
    o.with_snippet = false;
    o.budget = Some(b);
    match serde_saphyr::from_multiple_with_options::<serde_json::Value>(input, o) {
        Ok(d) => Ok(d.iter().map(json_of_value).collect()),
        Err(e) => Err(e.to_string()),
    }
}

/// Budget for a manifest: nesting depth 64, 100 anchors, 1000 aliases, 200 documents,
/// 200000 nodes, and scalars of twice the largest manifest.
pub open spec fn yaml_budget() -> (usize, usize, usize, usize, usize, usize) {
    (64, 100, 1000, 200, 200000, 1048576)
}

/// Parse a YAML stream into JSON documents with DoS budgets.
pub fn parse_yaml(input: &str) -> (r: Result<Vec<Json>, AppError>)
    ensures
        byte_len(input@) > MAX_INPUT_BYTES ==> (r matches Err(e) && is_invalid_input(
            e,
            "manifest larger than 524288 bytes"@,
        )),
        byte_len(input@) <= MAX_INPUT_BYTES ==> match yaml_documents_of(input@, yaml_budget()) {
            Ok(ds) => r matches Ok(v) && jv_items(v@) == ds,
            Err(m) => r matches Err(e) && is_invalid_input(e, "YAML parse error: "@ + m),
        },
        r matches Ok(v) ==> v@.len() <= 200,
{
    match check_manifest_size(input) {
        Ok(()) => {},
        Err(e) => return Err(e),
    }
    match yaml_documents(input, (64, 100, 1000, 200, 200000, 2 * MAX_INPUT_BYTES)) {
        Ok(d) => Ok(d),
        Err(m) => {
            let mut msg = "YAML parse error: ".to_owned();
            push_all(&mut msg, &chars_of(m.as_str()));
            Err(AppError::InvalidInput(msg))
        },
    }
}


// ---------------------------------------------------------------- draft-04 validation

/// The violations that jsonschema finds in the value `doc` against the draft-04 schema
/// `schema` (both as serde_json values; formats not checked, unknown formats ignored),
/// each as (instance path, message, schema path) in the order the validator yields them;
/// or the text of the error when the schema does not compile. A function of the two
/// values alone.
pub uninterp spec fn draft4_errors(schema: JsonV, doc: JsonV) -> Result<
    Seq<(Seq<char>, Seq<char>, Seq<char>)>,
    Seq<char>,
>;

pub open spec fn triple_view(t: (String, String, String)) -> (Seq<char>, Seq<char>, Seq<char>) {
    (t.0@, t.1@, t.2@)
}

/// Compiles the schema with `jsonschema::options().with_draft(Draft4)` (formats off,
/// unknown formats ignored) and lists `iter_errors` of the document.
#[verifier::external_body]
fn draft4_validate(schema: &Json, doc: &Json) -> (r: Result<Vec<(String, String, String)>, String>)
    ensures
        match r {
            Ok(v) => draft4_errors(schema@, doc@) == Ok::<Seq<(Seq<char>, Seq<char>, Seq<char>)>, Seq<char>>(
                v@.map_values(|t: (String, String, String)| triple_view(t)),
            ),
            Err(e) => draft4_errors(schema@, doc@) == Err::<Seq<(Seq<char>, Seq<char>, Seq<char>)>, Seq<char>>(e@),
        },
{
    let d = value_of_json(doc);
    let v = jsonschema::options()
        .with_draft(jsonschema::Draft::Draft4)
        .should_validate_formats(false)
        .should_ignore_unknown_formats(true)
        .build(&value_of_json(schema))
        .map_err(|e| e.to_string())?;
    Ok(v.iter_errors(&d).map(|e| (e.instance_path().to_string(), e.to_string(), e.schema_path().to_string())).collect())
}

pub open spec fn field_error_view(e: FieldError) -> (Seq<char>, Seq<char>, Seq<char>) {
    (e.path@, e.message@, e.schema_path@)
}

/// The schema a document is checked against: the stored one, closed in strict mode.
pub open spec fn checked_schema(schema: JsonV, strict: bool) -> JsonV {
    if strict {
        strict_of(schema)
    } else {
        schema
    }
}

/// Checks `doc` against `schema` (closed first in strict mode) as a draft-04 schema: the
/// first `MAX_ERRORS_PER_DOC` violations, or an internal error when the schema does not
/// compile.
pub fn check_document(schema: &Json, doc: &Json, strict: bool) -> (r: Result<Vec<FieldError>, AppError>)
    ensures
        match draft4_errors(checked_schema(schema@, strict), doc@) {
            Ok(es) => r matches Ok(v) && v@.map_values(|e: FieldError| field_error_view(e)) == es.take(
                if es.len() > MAX_ERRORS_PER_DOC { MAX_ERRORS_PER_DOC as int } else { es.len() as int },
            ),
            Err(m) => r matches Err(AppError::Internal(t)) && t@ == "schema compile failed: "@ + m,
        },
{
    let mut s = schema.duplicate();
    if strict {
        strictify(&mut s);
    }
    match draft4_validate(&s, doc) {
        Ok(es) => {
            let ghost ev = es@.map_values(|t: (String, String, String)| triple_view(t));
            let n: usize = if es.len() > MAX_ERRORS_PER_DOC {
                MAX_ERRORS_PER_DOC
            } else {
                es.len()
            };
            let mut out: Vec<FieldError> = Vec::new();
            let mut i: usize = 0;
            while i < n
                invariant
                    n <= es.len(),
                    i <= n,
                    ev == es@.map_values(|t: (String, String, String)| triple_view(t)),
                    out@.map_values(|e: FieldError| field_error_view(e)) == ev.take(i as int),
                decreases n - i,
            {
                let e = FieldError {
                    path: es[i].0.clone(),
                    message: es[i].1.clone(),
                    schema_path: es[i].2.clone(),
                };
                assert(field_error_view(e) == ev[i as int]);
                let ghost before = out@;
                assert(before.map_values(|e: FieldError| field_error_view(e)).len() == i);
                assert(before.len() == i);
                out.push(e);
                proof {
                    assert forall|k: int| 0 <= k < i implies #[trigger] field_error_view(out@[k]) == ev[k] by {
                        assert(out@[k] == before[k]);
                        assert(before.map_values(|e: FieldError| field_error_view(e))[k] == ev.take(i as int)[k]);
                    }
                }
                i = i + 1;
                assert(out@.map_values(|e: FieldError| field_error_view(e)) =~= ev.take(i as int));
            }
            Ok(out)
        },
        Err(m) => {
            let mut msg = "schema compile failed: ".to_owned();
            push_all(&mut msg, &chars_of(m.as_str()));
            Err(AppError::Internal(msg))
        },
    }
}

// ---------------------------------------------------------------- per-document results

/// Which indexed schema a document was checked against.
#[derive(Debug)]
pub struct SchemaInfo {
    pub project: String,
    pub version: String,
    pub pinned: bool,
    pub source: String,
    pub api_group: String,
    pub api_version: String,
    pub kind: String,
}

impl From<&KindRef> for SchemaInfo {
    /// The schema description of an indexed kind.
    fn from(k: &KindRef) -> (r: SchemaInfo) {
        SchemaInfo {
            project: k.project.clone(),
            version: k.version.clone(),
            pinned: k.pinned,
            source: k.source.clone(),
            api_group: k.api_group.clone(),
            api_version: k.api_version.clone(),
            kind: k.kind.clone(),
        }
    }
}

impl vstd::std_specs::convert::FromSpecImpl<&KindRef> for SchemaInfo {
    open spec fn obeys_from_spec() -> bool {
        true
    }

    open spec fn from_spec(k: &KindRef) -> SchemaInfo {
        SchemaInfo {
            project: k.project,
            version: k.version,
            pinned: k.pinned,
            source: k.source,
            api_group: k.api_group,
            api_version: k.api_version,
            kind: k.kind,
        }
    }
}

/// One schema violation: where in the document, what, and where in the schema.
#[derive(Debug)]
pub struct FieldError {
    pub path: String,
    pub message: String,
    pub schema_path: String,
}

/// The outcome for one document of a manifest.
#[derive(Debug)]
pub struct DocResult {
    pub index: usize,
    pub api_version: Option<String>,
    pub kind: Option<String>,
    pub name: Option<String>,
    /// `valid`, `invalid`, `unknown_kind` or `error`.
    pub status: &'static str,
    pub schema: Option<SchemaInfo>,
    pub errors: Vec<FieldError>,
    pub message: Option<String>,
}

/// A document that names a kind, to be looked up in the index.
#[derive(Debug)]
pub struct Lookup {
    pub index: usize,
    pub api_version: String,
    pub kind: String,
    pub name: Option<String>,
}

/// Summary counts and per-document results of a validation.
#[derive(Debug)]
pub struct ValidationReport {
    pub strict: bool,
    pub valid: usize,
    pub invalid: usize,
    pub unknown_kind: usize,
    pub error: usize,
    pub documents: Vec<DocResult>,
}

/// Number of results with the given status.
pub open spec fn count_status(docs: Seq<DocResult>, status: Seq<char>) -> nat
    decreases docs.len(),
{
    if docs.len() == 0 {
        0
    } else {
        count_status(docs.drop_last(), status) + if docs.last().status@ == status {
            1nat
        } else {
            0nat
        }
    }
}

pub open spec fn known_status(s: Seq<char>) -> bool {
    s == "valid"@ || s == "invalid"@ || s == "unknown_kind"@ || s == "error"@
}

impl ValidationReport {
    /// The summary counts are the numbers of documents with each status, and every
    /// document has one of the four statuses.
    pub open spec fn wf(&self) -> bool {
        &&& self.valid == count_status(self.documents@, "valid"@)
        &&& self.invalid == count_status(self.documents@, "invalid"@)
        &&& self.unknown_kind == count_status(self.documents@, "unknown_kind"@)
        &&& self.error == count_status(self.documents@, "error"@)
        &&& forall|i: int| 0 <= i < self.documents@.len() ==> known_status(#[trigger] self.documents@[i].status@)
    }

    /// An empty report.
    pub fn new(strict: bool) -> (r: ValidationReport)
        ensures
            r.wf(),
            r.strict == strict,
            r.documents@.len() == 0,
    {
        ValidationReport { strict, valid: 0, invalid: 0, unknown_kind: 0, error: 0, documents: Vec::new() }
    }

    /// Adds one result, counting it under its status.
    fn add(&mut self, d: DocResult)
        requires
            old(self).wf(),
            known_status(d.status@),
            old(self).documents@.len() < usize::MAX,
        ensures
            final(self).wf(),
            final(self).strict == old(self).strict,
            final(self).documents@ == old(self).documents@.push(d),
    {
        proof {
            reveal_strlit("valid");
            reveal_strlit("invalid");
            reveal_strlit("unknown_kind");
            reveal_strlit("error");
            lemma_count_le(self.documents@, d.status@);
            assert("valid"@.len() == 5 && "invalid"@.len() == 7 && "unknown_kind"@.len() == 12 && "error"@.len() == 5);
            assert("valid"@[0] != "error"@[0]);
        }
        let ghost old_docs = self.documents@;
        if crate::json::str_eq(d.status, "valid") {
            self.valid = self.valid + 1;
        } else if crate::json::str_eq(d.status, "invalid") {
            self.invalid = self.invalid + 1;
        } else if crate::json::str_eq(d.status, "unknown_kind") {
            self.unknown_kind = self.unknown_kind + 1;
        } else {
            self.error = self.error + 1;
        }
        let ghost ds = d.status@;
        self.documents.push(d);
        assert(self.documents@.drop_last() =~= old_docs);
        assert(count_status(self.documents@, "valid"@) == count_status(old_docs, "valid"@) + if ds == "valid"@ { 1nat } else { 0nat });
        assert(count_status(self.documents@, "invalid"@) == count_status(old_docs, "invalid"@) + if ds == "invalid"@ { 1nat } else { 0nat });
        assert(count_status(self.documents@, "unknown_kind"@) == count_status(old_docs, "unknown_kind"@) + if ds == "unknown_kind"@ { 1nat } else { 0nat });
        assert(count_status(self.documents@, "error"@) == count_status(old_docs, "error"@) + if ds == "error"@ { 1nat } else { 0nat });
        assert forall|i: int| 0 <= i < self.documents@.len() implies known_status(#[trigger] self.documents@[i].status@) by {
            if i < old_docs.len() {
                assert(self.documents@[i] == old_docs[i]);
            }
        }
        assert(self.valid == count_status(self.documents@, "valid"@));
        assert(self.invalid == count_status(self.documents@, "invalid"@));
        assert(self.unknown_kind == count_status(self.documents@, "unknown_kind"@));
        assert(self.error == count_status(self.documents@, "error"@));
    }
}

proof fn lemma_count_le(docs: Seq<DocResult>, s: Seq<char>)
    ensures
        count_status(docs, s) <= docs.len(),
    decreases docs.len(),
{
    if docs.len() > 0 {
        lemma_count_le(docs.drop_last(), s);
    }
}

/// The string at `key` of a document.
pub open spec fn doc_string(doc: JsonV, key: Seq<char>) -> Option<Seq<char>> {
    as_str(get(doc, key))
}

/// The document's `metadata.name`.
pub open spec fn doc_name(doc: JsonV) -> Option<Seq<char>> {
    as_str(crate::json::get_opt(get(doc, "metadata"@), "name"@))
}

fn opt_string(j: Option<&Json>) -> (r: Option<String>)
    ensures
        opt_view(r) == as_str(crate::schema::explain::opt_jv_ref(j)),
{
    match j {
        Some(Json::Str(s)) => Some(s.clone()),
        _ => None,
    }
}

fn copy_opt(o: &Option<String>) -> (r: Option<String>)
    ensures
        r == *o,
{
    match o {
        Some(s) => Some(s.clone()),
        None => None,
    }
}

/// The result recorded for a document that is not a mapping or does not name its kind.
pub open spec fn error_result(d: DocResult, index: usize, doc: JsonV) -> bool {
    &&& d.index == index
    &&& d.status@ == "error"@
    &&& d.schema is None
    &&& d.errors@.len() == 0
    &&& if doc is Object {
        &&& opt_view(d.api_version) == doc_string(doc, "apiVersion"@)
        &&& opt_view(d.kind) == doc_string(doc, "kind"@)
        &&& opt_view(d.name) == doc_name(doc)
        &&& opt_view(d.message) == Some("missing apiVersion or kind"@)
    } else {
        &&& d.api_version is None && d.kind is None && d.name is None
        &&& opt_view(d.message) == Some("document is not a mapping"@)
    }
}

impl ValidationReport {
    /// Looks at one parsed document: `null` documents are skipped, documents that are not
    /// mappings or lack `apiVersion`/`kind` are recorded as errors, and the rest are handed
    /// back for schema lookup.
    pub fn inspect(&mut self, index: usize, doc: &Json) -> (r: Option<Lookup>)
        requires
            old(self).wf(),
            old(self).documents@.len() < usize::MAX,
        ensures
            final(self).wf(),
            final(self).strict == old(self).strict,
            doc@ is Null ==> r is None && final(self).documents@ == old(self).documents@,
            !(doc@ is Null) && (!(doc@ is Object) || doc_string(doc@, "apiVersion"@) is None
                || doc_string(doc@, "kind"@) is None) ==> r is None && final(self).documents@.len()
                == old(self).documents@.len() + 1 && final(self).documents@.drop_last()
                == old(self).documents@ && error_result(final(self).documents@.last(), index, doc@),
            doc@ is Object && doc_string(doc@, "apiVersion"@) is Some && doc_string(doc@, "kind"@)
                is Some ==> final(self).documents@ == old(self).documents@ && (r matches Some(l) && l.index
                == index && Some(l.api_version@) == doc_string(doc@, "apiVersion"@) && Some(l.kind@)
                == doc_string(doc@, "kind"@) && opt_view(l.name) == doc_name(doc@)),
    {
        if doc.is_null() {
            return None;
        }
        if !doc.is_object() {
            let d = DocResult {
                index,
                api_version: None,
                kind: None,
                name: None,
                status: "error",
                schema: None,
                errors: Vec::new(),
                message: Some("document is not a mapping".to_owned()),
            };
            proof { reveal_strlit("error"); }
            self.add(d);
            return None;
        }
        let api_version = opt_string(doc.get("apiVersion"));
        let kind = opt_string(doc.get("kind"));
        let name = match doc.get("metadata") {
            Some(m) => opt_string(m.get("name")),
            None => None,
        };
        match (&api_version, &kind) {
            (Some(av), Some(k)) => Some(Lookup { index, api_version: av.clone(), kind: k.clone(), name }),
            _ => {
                let d = DocResult {
                    index,
                    api_version,
                    kind,
                    name,
                    status: "error",
                    schema: None,
                    errors: Vec::new(),
                    message: Some("missing apiVersion or kind".to_owned()),
                };
                proof { reveal_strlit("error"); }
                self.add(d);
                None
            },
        }
    }

    /// Records a document whose kind has no indexed schema.
    pub fn record_unknown(&mut self, l: Lookup)
        requires
            old(self).wf(),
            old(self).documents@.len() < usize::MAX,
        ensures
            final(self).wf(),
            final(self).strict == old(self).strict,
            final(self).documents@.len() == old(self).documents@.len() + 1,
            final(self).documents@.drop_last() == old(self).documents@,
            ({
                let d = final(self).documents@.last();
                &&& d.index == l.index
                &&& d.status@ == "unknown_kind"@
                &&& opt_view(d.api_version) == Some(l.api_version@)
                &&& opt_view(d.kind) == Some(l.kind@)
                &&& d.name == l.name
                &&& d.schema is None
                &&& d.errors@.len() == 0
                &&& opt_view(d.message) == Some(
                    "no schema indexed for "@ + l.api_version@ + seq!['/'] + l.kind@
                        + "; try list_kinds or search_fields"@,
                )
            }),
    {
        let mut msg = "no schema indexed for ".to_owned();
        push_all(&mut msg, &chars_of(l.api_version.as_str()));
        push_all(&mut msg, &chars_of("/"));
        push_all(&mut msg, &chars_of(l.kind.as_str()));
        push_all(&mut msg, &chars_of("; try list_kinds or search_fields"));
        proof { reveal_strlit("/"); reveal_strlit("unknown_kind"); }
        let d = DocResult {
            index: l.index,
            api_version: Some(l.api_version),
            kind: Some(l.kind),
            name: l.name,
            status: "unknown_kind",
            schema: None,
            errors: Vec::new(),
            message: Some(msg),
        };
        self.add(d);
    }
}

// ---------------------------------------------------------------- schema choice

/// The query that finds a document's schema: the kind within the group and version of
/// its `apiVersion`.
pub fn document_query(api_version: &str, kind: &str) -> (q: KindQuery)
    ensures
        q@ == (KindQueryV {
            kind: kind@,
            group: Some(split_api_version_of(api_version@).0),
            api_version: Some(split_api_version_of(api_version@).1),
            project: None,
            version: None,
        }),
{
    let (g, v) = split_api_version(api_version);
    KindQuery { kind: kind.to_owned(), group: Some(g), api_version: Some(v), project: None, version: None }
}

/// `r` is the requested Kubernetes release of the core schemas.
pub open spec fn is_requested_k8s(r: KindRef, kv: Seq<char>) -> bool {
    r.project@ == "k8s"@ && r.version@ == kv
}

/// Position of the first candidate from `k8s` at the requested version.
pub open spec fn first_requested(refs: Seq<KindRef>, kv: Seq<char>) -> Option<int>
    decreases refs.len(),
{
    if refs.len() == 0 {
        None
    } else {
        match first_requested(refs.drop_last(), kv) {
            Some(i) => Some(i),
            None => if is_requested_k8s(refs.last(), kv) {
                Some(refs.len() - 1)
            } else {
                None
            },
        }
    }
}

/// The schema a document is checked against: with a requested Kubernetes version, the
/// first candidate from `k8s` at that version, otherwise (or when there is none) the
/// best candidate.
pub open spec fn chosen_schema(refs: Seq<KindRef>, kv: Option<Seq<char>>) -> Option<KindRef> {
    if refs.len() == 0 {
        None
    } else {
        match kv {
            Some(v) => match first_requested(refs, v) {
                Some(i) => Some(refs[i]),
                None => Some(refs[0]),
            },
            None => Some(refs[0]),
        }
    }
}

/// The schema to validate a document against (see `chosen_schema`).
pub fn schema_for_document(refs: Vec<KindRef>, k8s_version: Option<&str>) -> (r: Option<KindRef>)
    ensures
        r == chosen_schema(refs@, opt_str_view(k8s_version)),
{
    if refs.len() == 0 {
        return None;
    }
    match k8s_version {
        Some(kv) => {
            let mut i: usize = 0;
            while i < refs.len()
                invariant
                    i <= refs.len(),
                    opt_str_view(k8s_version) == Some(kv@),
                    first_requested(refs@.take(i as int), kv@) is None,
                decreases refs.len() - i,
            {
                assert(refs@.take(i + 1).drop_last() =~= refs@.take(i as int));
                if crate::json::str_eq(refs[i].project.as_str(), "k8s") && crate::json::str_eq(refs[i].version.as_str(), kv) {
                    proof {
                        assert(refs@.take(i + 1).last() == refs@[i as int]);
                        assert(is_requested_k8s(refs@[i as int], kv@));
                        assert(first_requested(refs@.take(i + 1), kv@) == Some(i as int));
                        lemma_first_requested_prefix(refs@, i as int + 1, kv@);
                    }
                    let mut refs2 = refs;
                    let k = refs2.remove(i);
                    return Some(k);
                }
                i = i + 1;
            }
            assert(refs@.take(refs.len() as int) =~= refs@);
            let mut refs2 = refs;
            Some(refs2.remove(0))
        },
        None => {
            let mut refs2 = refs;
            Some(refs2.remove(0))
        },
    }
}

/// A position found in a prefix is the position in the whole sequence.
pub proof fn lemma_first_requested_prefix(s: Seq<KindRef>, n: int, kv: Seq<char>)
    requires
        0 <= n <= s.len(),
        first_requested(s.take(n), kv) is Some,
    ensures
        first_requested(s, kv) == first_requested(s.take(n), kv),
    decreases s.len() - n,
{
    if n < s.len() {
        assert(s.take(n + 1).drop_last() =~= s.take(n));
        lemma_first_requested_prefix(s, n + 1, kv);
    } else {
        assert(s.take(n) =~= s);
    }
}

// ---------------------------------------------------------------- checked documents

/// Error ordering: by instance path.
pub open spec fn error_lt_fn() -> spec_fn(FieldError, FieldError) -> bool {
    |a: FieldError, b: FieldError| chars_lt(a.path@, b.path@)
}

/// Errors sorted by instance path; errors with equal paths keep their order.
pub fn sort_errors(errs: Vec<FieldError>) -> (r: Vec<FieldError>)
    ensures
        r@ == sort_stable(errs@, error_lt_fn()),
{
    let ghost lt = error_lt_fn();
    let mut rest = errs;
    let mut out: Vec<FieldError> = Vec::new();
    let ghost input = rest@;
    assert(input.len() == rest.len());
    let mut i: usize = 0;
    while rest.len() > 0
        invariant
            input.len() == i + rest@.len(),
            input.len() <= usize::MAX,
            rest@ == input.skip(i as int),
            lt == error_lt_fn(),
            out@ == sort_stable(input.take(i as int), lt),
        decreases rest.len(),
    {
        let x = rest.remove(0);
        let xp = chars_of(x.path.as_str());
        let mut j: usize = 0;
        while j < out.len() && !crate::text::chars_less(&xp, &chars_of(out[j].path.as_str()))
            invariant
                j <= out.len(),
                xp@ == x.path@,
                forall|k: int| 0 <= k < j ==> !lt(x, #[trigger] out@[k]),
                lt == error_lt_fn(),
            decreases out.len() - j,
        {
            j = j + 1;
        }
        proof {
            lemma_insert_stable_at(out@, x, lt, j as int);
            let t = input.take(i + 1);
            assert(t.drop_last() =~= input.take(i as int));
            assert(t.last() == x);
            assert(input.skip(i + 1) =~= input.skip(i as int).remove(0));
        }
        out.insert(j, x);
        i = i + 1;
    }
    assert(input.take(i as int) =~= input);
    out
}

/// The note added when the requested Kubernetes version is not indexed and another
/// release of the core schemas was used.
pub open spec fn version_note(kref: KindRef, k8s_version: Option<Seq<char>>) -> Option<Seq<char>> {
    match k8s_version {
        Some(kv) => if kref.project@ == "k8s"@ && kref.version@ != kv {
            Some("k8s version "@ + kv + " not indexed; validated against "@ + kref.version@)
        } else {
            None
        },
        None => None,
    }
}

pub open spec fn opt_str_view(o: Option<&str>) -> Option<Seq<char>> {
    match o {
        Some(s) => Some(s@),
        None => None,
    }
}

impl ValidationReport {
    /// Records a document checked against `kref`'s schema with the given violations (the
    /// first `MAX_ERRORS_PER_DOC` are kept, ordered by instance path).
    pub fn record_checked(
        &mut self,
        l: Lookup,
        kref: &KindRef,
        errs: Vec<FieldError>,
        k8s_version: Option<&str>,
    )
        requires
            old(self).wf(),
            old(self).documents@.len() < usize::MAX,
        ensures
            final(self).wf(),
            final(self).strict == old(self).strict,
            final(self).documents@.len() == old(self).documents@.len() + 1,
            final(self).documents@.drop_last() == old(self).documents@,
            ({
                let d = final(self).documents@.last();
                let kept = if errs@.len() > MAX_ERRORS_PER_DOC {
                    errs@.take(MAX_ERRORS_PER_DOC as int)
                } else {
                    errs@
                };
                &&& d.index == l.index
                &&& d.status@ == (if errs@.len() == 0 {
                    "valid"@
                } else {
                    "invalid"@
                })
                &&& opt_view(d.api_version) == Some(l.api_version@)
                &&& opt_view(d.kind) == Some(l.kind@)
                &&& d.name == l.name
                &&& d.schema matches Some(s) && s.project == kref.project && s.version == kref.version
                    && s.pinned == kref.pinned && s.source == kref.source && s.api_group == kref.api_group
                    && s.api_version == kref.api_version && s.kind == kref.kind
                &&& d.errors@ == sort_stable(kept, error_lt_fn())
                &&& opt_view(d.message) == version_note(*kref, opt_str_view(k8s_version))
            }),
    {
        let mut errs = errs;
        if errs.len() > MAX_ERRORS_PER_DOC {
            errs.truncate(MAX_ERRORS_PER_DOC);
        }
        let errors = sort_errors(errs);
        let status = if errors.len() == 0 {
            "valid"
        } else {
            "invalid"
        };
        let message = match k8s_version {
            Some(kv) => if crate::json::str_eq(kref.project.as_str(), "k8s") && !crate::json::str_eq(kref.version.as_str(), kv) {
                let mut m = "k8s version ".to_owned();
                push_all(&mut m, &chars_of(kv));
                push_all(&mut m, &chars_of(" not indexed; validated against "));
                push_all(&mut m, &chars_of(kref.version.as_str()));
                Some(m)
            } else {
                None
            },
            None => None,
        };
        proof {
            reveal_strlit("valid");
            reveal_strlit("invalid");
            crate::sort::lemma_sort_stable_multiset(errors@, error_lt_fn());
        }
        assert(errors@.len() == 0 <==> (errs@.len() == 0)) by {
            broadcast use vstd::seq_lib::group_to_multiset_ensures;
        }
        let d = DocResult {
            index: l.index,
            api_version: Some(l.api_version),
            kind: Some(l.kind),
            name: l.name,
            status,
            schema: Some(SchemaInfo::from(kref)),
            errors,
            message,
        };
        self.add(d);
    }
}

/// Ordering errors by instance path is a strict weak order (errors tie exactly when
/// their paths are equal).
pub proof fn lemma_error_order()
    ensures
        strict_weak_order(error_lt_fn()),
{
    let lt = error_lt_fn();
    assert forall|a: FieldError| !#[trigger] lt(a, a) by {
        crate::text::lemma_chars_lt_irreflexive(a.path@);
    }
    assert forall|a: FieldError, b: FieldError, c: FieldError|
        #![trigger lt(a, b), lt(b, c)]
        lt(a, b) && lt(b, c) implies lt(a, c) by {
        crate::text::lemma_chars_lt_transitive(a.path@, b.path@, c.path@);
    }
    assert forall|a: FieldError, b: FieldError, c: FieldError|
        #![trigger lt(a, b), lt(b, c)]
        !lt(a, b) && !lt(b, a) && !lt(b, c) && !lt(c, b) implies !lt(a, c) && !lt(c, a) by {
        crate::text::lemma_chars_lt_total(a.path@, b.path@);
        crate::text::lemma_chars_lt_total(b.path@, c.path@);
        crate::text::lemma_chars_lt_irreflexive(a.path@);
    }
}

/// A document's errors are reported by instance path: the sorted list holds exactly the
/// errors found, no error comes after one with a greater path, and errors with equal
/// paths keep their order.
pub proof fn lemma_errors_by_path(errs: Seq<FieldError>)
    ensures
        sort_stable(errs, error_lt_fn()).to_multiset() == errs.to_multiset(),
        sorted_by(sort_stable(errs, error_lt_fn()), error_lt_fn()),
{
    lemma_error_order();
    lemma_sort_stable_multiset(errs, error_lt_fn());
    lemma_sort_stable_sorted(errs, error_lt_fn());
}

/// Strict mode keeps the member names of a node, in order.
proof fn lemma_strict_members_names(m: Members, n: nat)
    requires
        n <= m.len(),
    ensures
        strict_members(m, n).len() == n,
        forall|i: int| 0 <= i < n ==> (#[trigger] strict_members(m, n)[i]).0 == m[i].0,
    decreases n,
{
    if n > 0 {
        lemma_strict_members_names(m, (n - 1) as nat);
        let r = strict_members(m, n);
        let p = strict_members(m, (n - 1) as nat);
        assert forall|i: int| 0 <= i < n implies (#[trigger] r[i]).0 == m[i].0 by {
            if i < n - 1 {
                assert(r[i] == p[i]);
            }
        }
    }
}

/// Strict mode closes object schemas: a node that lists `properties`, declares no
/// `additionalProperties` and does not preserve unknown fields gets
/// `additionalProperties: false`; any other node without `additionalProperties` gets
/// none.
pub proof fn lemma_strict_closes(m: Members)
    ensures
        closes_members(m) ==> get(strict_of(JsonV::Object(m)), "additionalProperties"@) == Some(
            JsonV::Bool(false),
        ),
        !closes_members(m) && members_get(m, "additionalProperties"@) is None ==> get(
            strict_of(JsonV::Object(m)),
            "additionalProperties"@,
        ) is None,
{
    let t = strict_members(m, m.len());
    lemma_strict_members_names(m, m.len());
    if closes_members(m) {
        crate::json::lemma_members_insert_get(t, "additionalProperties"@, JsonV::Bool(false));
    } else if members_get(m, "additionalProperties"@) is None {
        crate::json::lemma_members_get_none(m, "additionalProperties"@);
        crate::json::lemma_members_get_none(t, "additionalProperties"@);
        assert forall|i: int| 0 <= i < t.len() implies (#[trigger] t[i]).0 != "additionalProperties"@ by {
            assert(t[i].0 == m[i].0);
        }
    }
}


// ---------------------------------------------------------------- strict mode is idempotent

/// The value `strict_members` gives member `i` of `m`.
pub open spec fn member_fix(m: Members, i: int) -> JsonV {
    let k = m[i].0;
    let v = m[i].1;
    if !first_of_name(m, i) {
        v
    } else if is_schema_map_key(k) {
        match v {
            JsonV::Object(children) => JsonV::Object(strict_values(children, children.len())),
            _ => v,
        }
    } else if is_schema_key(k) {
        match v {
            JsonV::Object(_) => strict_of(v),
            _ => v,
        }
    } else if is_schema_list_key(k) {
        match v {
            JsonV::Array(children) => JsonV::Array(strict_items(children, children.len())),
            _ => v,
        }
    } else {
        v
    }
}

proof fn lemma_strict_members_at(m: Members, n: nat)
    requires
        n <= m.len(),
    ensures
        strict_members(m, n).len() == n,
        forall|i: int| 0 <= i < n ==> #[trigger] strict_members(m, n)[i] == (m[i].0, member_fix(m, i)),
    decreases n,
{
    if n > 0 {
        lemma_strict_members_at(m, (n - 1) as nat);
        let r = strict_members(m, n);
        let p = strict_members(m, (n - 1) as nat);
        assert forall|i: int| 0 <= i < n implies #[trigger] r[i] == (m[i].0, member_fix(m, i)) by {
            if i < n - 1 {
                assert(r[i] == p[i]);
            }
        }
    }
}

proof fn lemma_strict_values_at(m: Members, n: nat)
    requires
        n <= m.len(),
    ensures
        strict_values(m, n).len() == n,
        forall|i: int| 0 <= i < n ==> #[trigger] strict_values(m, n)[i] == (m[i].0, strict_of(m[i].1)),
    decreases n,
{
    if n > 0 {
        lemma_strict_values_at(m, (n - 1) as nat);
        let r = strict_values(m, n);
        let p = strict_values(m, (n - 1) as nat);
        assert forall|i: int| 0 <= i < n implies #[trigger] r[i] == (m[i].0, strict_of(m[i].1)) by {
            if i < n - 1 {
                assert(r[i] == p[i]);
            }
        }
    }
}

proof fn lemma_strict_items_at(a: Seq<JsonV>, n: nat)
    requires
        n <= a.len(),
    ensures
        strict_items(a, n).len() == n,
        forall|i: int| 0 <= i < n ==> #[trigger] strict_items(a, n)[i] == strict_of(a[i]),
    decreases n,
{
    if n > 0 {
        lemma_strict_items_at(a, (n - 1) as nat);
        let r = strict_items(a, n);
        let p = strict_items(a, (n - 1) as nat);
        assert forall|i: int| 0 <= i < n implies #[trigger] r[i] == strict_of(a[i]) by {
            if i < n - 1 {
                assert(r[i] == p[i]);
            }
        }
    }
}

proof fn lemma_members_fixpoint(l: Members)
    requires
        forall|i: int| 0 <= i < l.len() ==> #[trigger] member_fix(l, i) == l[i].1,
    ensures
        strict_members(l, l.len()) == l,
{
    lemma_strict_members_at(l, l.len());
    assert(strict_members(l, l.len()) =~= l);
}

proof fn lemma_values_fixpoint(c: Members)
    requires
        forall|i: int| 0 <= i < c.len() ==> #[trigger] strict_of(c[i].1) == c[i].1,
    ensures
        strict_values(c, c.len()) == c,
{
    lemma_strict_values_at(c, c.len());
    assert(strict_values(c, c.len()) =~= c);
}

proof fn lemma_items_fixpoint(a: Seq<JsonV>)
    requires
        forall|i: int| 0 <= i < a.len() ==> #[trigger] strict_of(a[i]) == a[i],
    ensures
        strict_items(a, a.len()) == a,
{
    lemma_strict_items_at(a, a.len());
    assert(strict_items(a, a.len()) =~= a);
}

/// Where `members_insert` puts a member whose name is not yet there.
proof fn lemma_members_insert_split(m: Members, k: Seq<char>, v: JsonV) -> (j: int)
    requires
        forall|i: int| 0 <= i < m.len() ==> (#[trigger] m[i]).0 != k,
    ensures
        0 <= j <= m.len(),
        crate::json::members_insert(m, k, v) == m.take(j) + seq![(k, v)] + m.skip(j),
    decreases m.len(),
{
    if m.len() == 0 {
        assert(m.take(0) + seq![(k, v)] + m.skip(0) =~= seq![(k, v)]);
        0
    } else if crate::text::chars_lt(k, m[0].0) {
        assert(m[0].0 != k);
        assert(m.take(0) + seq![(k, v)] + m.skip(0) =~= seq![(k, v)] + m);
        0
    } else {
        assert(m[0].0 != k);
        let d = m.drop_first();
        assert forall|i: int| 0 <= i < d.len() implies (#[trigger] d[i]).0 != k by {
            assert(d[i] == m[i + 1]);
        }
        let j0 = lemma_members_insert_split(d, k, v);
        assert(seq![m[0]] + (d.take(j0) + seq![(k, v)] + d.skip(j0)) =~= m.take(j0 + 1) + seq![(k, v)] + m.skip(j0 + 1));
        j0 + 1
    }
}

/// Lists with the same names at the same places have members of the same names.
proof fn lemma_get_same_names(a: Members, b: Members, k: Seq<char>)
    requires
        a.len() == b.len(),
        forall|i: int| 0 <= i < a.len() ==> (#[trigger] a[i]).0 == b[i].0,
    ensures
        (members_get(a, k) is Some) == (members_get(b, k) is Some),
        (forall|i: int| 0 <= i < a.len() && (#[trigger] a[i]).0 == k ==> a[i].1 == b[i].1) ==> members_get(a, k)
            == members_get(b, k),
    decreases a.len(),
{
    if a.len() > 0 {
        let da = a.drop_first();
        let db = b.drop_first();
        assert forall|i: int| 0 <= i < da.len() implies (#[trigger] da[i]).0 == db[i].0 by {
            assert(da[i] == a[i + 1] && db[i] == b[i + 1]);
        }
        lemma_get_same_names(da, db, k);
        if forall|i: int| 0 <= i < a.len() && (#[trigger] a[i]).0 == k ==> a[i].1 == b[i].1 {
            assert forall|i: int| 0 <= i < da.len() && (#[trigger] da[i]).0 == k implies da[i].1 == db[i].1 by {
                assert(da[i] == a[i + 1] && db[i] == b[i + 1]);
            }
        }
    }
}

proof fn lemma_first_same(a: Members, b: Members, i: int)
    requires
        0 <= i < a.len(),
        i < b.len(),
        forall|l: int| 0 <= l <= i ==> (#[trigger] a[l]).0 == b[l].0,
    ensures
        first_of_name(a, i) == first_of_name(b, i),
{
    assert(a[i].0 == b[i].0);
    if first_of_name(a, i) {
        assert forall|l: int| 0 <= l < i implies (#[trigger] b[l]).0 != b[i].0 by {
            assert(a[l].0 == b[l].0);
        }
    }
    if first_of_name(b, i) {
        assert forall|l: int| 0 <= l < i implies (#[trigger] a[l]).0 != a[i].0 by {
            assert(a[l].0 == b[l].0);
        }
    }
}

/// Which kind of schema member `type`, the preserve flag and `additionalProperties` are.
proof fn lemma_key_kinds()
    ensures
        !is_schema_map_key("type"@) && !is_schema_key("type"@) && !is_schema_list_key("type"@),
        !is_schema_map_key("x-kubernetes-preserve-unknown-fields"@) && !is_schema_key(
            "x-kubernetes-preserve-unknown-fields"@,
        ) && !is_schema_list_key("x-kubernetes-preserve-unknown-fields"@),
        !is_schema_map_key("additionalProperties"@) && is_schema_key("additionalProperties"@),
{
    reveal_strlit("type");
    reveal_strlit("x-kubernetes-preserve-unknown-fields");
    reveal_strlit("properties");
    reveal_strlit("definitions");
    reveal_strlit("$defs");
    reveal_strlit("patternProperties");
    reveal_strlit("items");
    reveal_strlit("additionalProperties");
    reveal_strlit("not");
    reveal_strlit("allOf");
    reveal_strlit("anyOf");
    reveal_strlit("oneOf");
    assert("type"@.len() == 4);
    assert("x-kubernetes-preserve-unknown-fields"@.len() == 36);
    assert("additionalProperties"@.len() == 20);
    assert("properties"@.len() == 10);
    assert("definitions"@.len() == 11);
    assert("$defs"@.len() == 5);
    assert("patternProperties"@.len() == 17);
    assert("items"@.len() == 5);
    assert("not"@.len() == 3);
    assert("allOf"@.len() == 5);
    assert("anyOf"@.len() == 5);
    assert("oneOf"@.len() == 5);
}

proof fn lemma_strict_idempotent_rec(v: JsonV)
    ensures
        strict_of(strict_of(v)) == strict_of(v),
    decreases v, 0nat,
{
    match v {
        JsonV::Object(m) => {
            let t = strict_members(m, m.len());
            lemma_strict_members_at(m, m.len());
            lemma_members_fixed(m, m.len());
            let ap = "additionalProperties"@;
            if closes_members(m) {
                let m1 = crate::json::members_insert(t, ap, JsonV::Bool(false));
                crate::json::lemma_members_get_none(m, ap);
                assert forall|i: int| 0 <= i < t.len() implies (#[trigger] t[i]).0 != ap by {
                    assert(t[i].0 == m[i].0);
                }
                let j = lemma_members_insert_split(t, ap, JsonV::Bool(false));
                lemma_fix_after_insert(t, j);
                lemma_members_fixpoint(m1);
                crate::json::lemma_members_insert_get(t, ap, JsonV::Bool(false));
                assert(strict_of(v) == JsonV::Object(m1));
            } else {
                lemma_members_fixpoint(t);
                lemma_closes_same(m, t);
            }
        },
        JsonV::Array(a) => {
            lemma_items_fixed(a, a.len());
            let a1 = strict_items(a, a.len());
            lemma_strict_items_at(a, a.len());
            assert forall|i: int| 0 <= i < a1.len() implies #[trigger] strict_of(a1[i]) == a1[i] by {
                assert(a1[i] == strict_of(a[i]));
            }
            lemma_items_fixpoint(a1);
        },
        _ => {},
    }
}

/// Closing depends only on members that `strict_members` keeps as they are.
proof fn lemma_closes_same(m: Members, t: Members)
    requires
        t == strict_members(m, m.len()),
    ensures
        closes_members(t) == closes_members(m),
{
    lemma_strict_members_at(m, m.len());
    lemma_key_kinds();
    assert forall|i: int| 0 <= i < t.len() implies (#[trigger] t[i]).0 == m[i].0 by {}
    lemma_get_same_names(t, m, "type"@);
    lemma_get_same_names(t, m, "x-kubernetes-preserve-unknown-fields"@);
    lemma_get_same_names(t, m, "properties"@);
    lemma_get_same_names(t, m, "additionalProperties"@);
    assert forall|i: int| 0 <= i < t.len() && (#[trigger] t[i]).0 == "type"@ implies t[i].1 == m[i].1 by {
        assert(t[i] == (m[i].0, member_fix(m, i)));
        assert(m[i].0 == "type"@);
    }
    assert forall|i: int| 0 <= i < t.len() && (#[trigger] t[i]).0 == "x-kubernetes-preserve-unknown-fields"@
        implies t[i].1 == m[i].1 by {
        assert(t[i] == (m[i].0, member_fix(m, i)));
        assert(m[i].0 == "x-kubernetes-preserve-unknown-fields"@);
    }
}

/// After inserting `additionalProperties: false` into a fixed member list that lacks it,
/// every member is still fixed.
proof fn lemma_fix_after_insert(t: Members, j: int)
    requires
        0 <= j <= t.len(),
        forall|i: int| 0 <= i < t.len() ==> #[trigger] member_fix(t, i) == t[i].1,
        forall|i: int| 0 <= i < t.len() ==> (#[trigger] t[i]).0 != "additionalProperties"@,
    ensures
        ({
            let m1 = t.take(j) + seq![("additionalProperties"@, JsonV::Bool(false))] + t.skip(j);
            forall|i: int| 0 <= i < m1.len() ==> #[trigger] member_fix(m1, i) == m1[i].1
        }),
{
    let ap = "additionalProperties"@;
    let m1 = t.take(j) + seq![(ap, JsonV::Bool(false))] + t.skip(j);
    lemma_key_kinds();
    assert forall|i: int| 0 <= i < m1.len() implies #[trigger] member_fix(m1, i) == m1[i].1 by {
        if i < j {
            assert(m1[i] == t[i]);
            assert forall|l: int| 0 <= l <= i implies (#[trigger] m1[l]).0 == t[l].0 by {
                assert(m1[l] == t[l]);
            }
            lemma_first_same(m1, t, i);
            assert(member_fix(t, i) == t[i].1);
        } else if i == j {
            assert(m1[i] == (ap, JsonV::Bool(false)));
            assert(first_of_name(m1, i)) by {
                assert forall|l: int| 0 <= l < i implies (#[trigger] m1[l]).0 != m1[i].0 by {
                    assert(m1[l] == t[l]);
                }
            }
            assert(!is_schema_map_key(ap));
            assert(is_schema_key(ap));
        } else {
            assert(m1[i] == t[i - 1]);
            assert(first_of_name(m1, i) == first_of_name(t, i - 1)) by {
                if first_of_name(t, i - 1) {
                    assert forall|l: int| 0 <= l < i implies (#[trigger] m1[l]).0 != m1[i].0 by {
                        if l < j {
                            assert(m1[l] == t[l]);
                        } else if l > j {
                            assert(m1[l] == t[l - 1]);
                        }
                    }
                } else {
                    let l = choose|l: int| 0 <= l < i - 1 && (#[trigger] t[l]).0 == t[i - 1].0;
                    if l < j {
                        assert(m1[l] == t[l]);
                    } else {
                        assert(m1[l + 1] == t[l]);
                    }
                }
            }
            assert(member_fix(t, i - 1) == t[i - 1].1);
        }
    }
}

proof fn lemma_members_fixed(m: Members, n: nat)
    requires
        n <= m.len(),
    ensures
        forall|i: int| 0 <= i < n ==> #[trigger] member_fix(strict_members(m, m.len()), i) == strict_members(
            m,
            m.len(),
        )[i].1,
    decreases m, n,
{
    if n > 0 {
        lemma_members_fixed(m, (n - 1) as nat);
        let t = strict_members(m, m.len());
        lemma_strict_members_at(m, m.len());
        let i = n - 1;
        assert forall|l: int| 0 <= l <= i implies (#[trigger] t[l]).0 == m[l].0 by {
            assert(t[l] == (m[l].0, member_fix(m, l)));
        }
        lemma_first_same(t, m, i);
        let k = m[i].0;
        let v = m[i].1;
        if first_of_name(m, i) {
            if is_schema_map_key(k) {
                if let JsonV::Object(c) = v {
                    lemma_values_fixed(c, c.len());
                    let sv = strict_values(c, c.len());
                    lemma_strict_values_at(c, c.len());
                    assert forall|q: int| 0 <= q < sv.len() implies #[trigger] strict_of(sv[q].1) == sv[q].1 by {
                        assert(sv[q] == (c[q].0, strict_of(c[q].1)));
                    }
                    lemma_values_fixpoint(sv);
                }
            } else if is_schema_key(k) {
                if let JsonV::Object(_) = v {
                    lemma_strict_idempotent_rec(v);
                }
            } else if is_schema_list_key(k) {
                if let JsonV::Array(c) = v {
                    lemma_items_fixed(c, c.len());
                    let si = strict_items(c, c.len());
                    lemma_strict_items_at(c, c.len());
                    assert forall|q: int| 0 <= q < si.len() implies #[trigger] strict_of(si[q]) == si[q] by {
                        assert(si[q] == strict_of(c[q]));
                    }
                    lemma_items_fixpoint(si);
                }
            }
        }
        assert(member_fix(t, i) == t[i].1);
    }
}

proof fn lemma_values_fixed(c: Members, n: nat)
    requires
        n <= c.len(),
    ensures
        forall|q: int| 0 <= q < n ==> #[trigger] strict_of(strict_of(c[q].1)) == strict_of(c[q].1),
    decreases c, n,
{
    if n > 0 {
        lemma_values_fixed(c, (n - 1) as nat);
        lemma_strict_idempotent_rec(c[n - 1].1);
    }
}

proof fn lemma_items_fixed(a: Seq<JsonV>, n: nat)
    requires
        n <= a.len(),
    ensures
        forall|q: int| 0 <= q < n ==> #[trigger] strict_of(strict_of(a[q])) == strict_of(a[q]),
    decreases a, n,
{
    if n > 0 {
        lemma_items_fixed(a, (n - 1) as nat);
        lemma_strict_idempotent_rec(a[n - 1]);
    }
}

/// Strict mode is idempotent: making a strict schema strict again changes nothing.
pub proof fn lemma_strict_idempotent(v: JsonV)
    ensures
        strict_of(strict_of(v)) == strict_of(v),
{
    lemma_strict_idempotent_rec(v);
}

} // verus!
