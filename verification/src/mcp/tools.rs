//! Tool parameters, the metrics label of a call, the kind query a tool resolves, and the
//! JSON bodies of error and schema results.

use vstd::prelude::*;

use crate::error::{error_kind, error_message, AppError};
use crate::json::{jv_items, jv_members, lemma_jv_items_index_all, lemma_jv_members_index_all, Json, JsonV};
use crate::schema::store::{
    group_version_of, parse_error_message, parse_kind_form, parse_kind_input, query_of,
    split_api_version_of, KindQuery, KindQueryV, KindRef,
};
use crate::text::{
    byte_len, byte_len_exceeds, chars_of, find_char, is_alnum, is_alnum_char,
    lemma_find_char_absent, lemma_split_once_at, push_all, split_once, trim,
};

verus! {

/// Seconds a manifest validation may take.
pub const VALIDATE_TIMEOUT_SECS: u64 = 2;

/// Seconds any other tool call may take.
pub const TOOL_TIMEOUT_SECS: u64 = 8;

// ---------------------------------------------------------------- parameters

/// `list_kinds`: the kinds of a project version, optionally of one API group.
#[derive(Debug)]
pub struct ListKindsParams {
    pub project: String,
    pub version: Option<String>,
    pub group: Option<String>,
}

/// `explain`: field documentation of a kind at a dotted path.
#[derive(Debug)]
pub struct ExplainParams {
    pub kind: String,
    pub path: Option<String>,
    pub project: Option<String>,
    pub version: Option<String>,
    /// Nesting depth of the field listing, 1 to 3 (default 1).
    pub depth: Option<u8>,
}

/// `get_schema`: the JSON Schema of a kind or of a field subtree.
#[derive(Debug)]
pub struct GetSchemaParams {
    pub kind: String,
    pub path: Option<String>,
    pub project: Option<String>,
    pub version: Option<String>,
}

/// `validate_manifest`: YAML documents to check against the indexed schemas.
#[derive(Debug)]
pub struct ValidateParams {
    pub yaml: String,
    pub k8s_version: Option<String>,
    /// Reject unknown fields (default true).
    pub strict: Option<bool>,
}

/// `search_fields` and `search_docs`: words, optional project and version, a limit.
#[derive(Debug)]
pub struct SearchParams {
    pub query: String,
    pub project: Option<String>,
    pub version: Option<String>,
    pub limit: Option<usize>,
}

/// `get_doc`: a documentation section and a character offset into it.
#[derive(Debug)]
pub struct GetDocParams {
    pub doc_id: i64,
    pub offset: Option<usize>,
}

/// `search_annotations`: a key prefix or words, optional provider and kind, a limit.
#[derive(Debug)]
pub struct SearchAnnotationsParams {
    pub query: String,
    pub provider: Option<String>,
    pub kind: Option<String>,
    pub limit: Option<usize>,
}

/// `get_annotation`: one catalog key, optionally of one provider.
#[derive(Debug)]
pub struct GetAnnotationParams {
    pub key: String,
    pub provider: Option<String>,
}

impl ValidateParams {
    /// Whether unknown fields are rejected: as asked, by default yes.
    pub fn strict_mode(&self) -> (r: bool)
        ensures
            r == match self.strict {
                Some(b) => b,
                None => true,
            },
    {
        match self.strict {
            Some(b) => b,
            None => true,
        }
    }
}

// ---------------------------------------------------------------- metrics label

/// A project slug short and plain enough to appear in a metrics label.
pub open spec fn label_safe(p: Seq<char>) -> bool {
    byte_len(p) <= 40 && forall|i: int| 0 <= i < p.len() ==> is_alnum(#[trigger] p[i]) || p[i] == '-'
}

/// The metrics label of a call: `tool:project` for a plain project slug, else the tool.
pub open spec fn metric_label_of(tool: Seq<char>, project: Option<Seq<char>>) -> Seq<char> {
    match project {
        Some(p) => if label_safe(p) {
            tool + seq![':'] + p
        } else {
            tool
        },
        None => tool,
    }
}

/// The metrics label of a call (see `metric_label_of`).
pub fn metric_label(tool: &str, project: Option<&str>) -> (r: String)
    ensures
        r@ == metric_label_of(
            tool@,
            match project {
                Some(p) => Some(p@),
                None => None,
            },
        ),
{
    let mut out = tool.to_owned();
    if let Some(p) = project {
        let pc = chars_of(p);
        if !byte_len_exceeds(&pc, 40) {
            let mut i: usize = 0;
            let mut ok = true;
            while i < pc.len()
                invariant
                    i <= pc.len(),
                    pc@ == p@,
                    ok == forall|j: int| 0 <= j < i ==> is_alnum(#[trigger] pc@[j]) || pc@[j] == '-',
                decreases pc.len() - i,
            {
                ok = ok && (is_alnum_char(pc[i]) || pc[i] == '-');
                i = i + 1;
            }
            if ok {
                let colon = vec![':'];
                push_all(&mut out, &colon);
                push_all(&mut out, &pc);
                assert(colon@ =~= seq![':']);
            }
        }
    }
    out
}

// ---------------------------------------------------------------- resolving a kind

/// The query a tool resolves: the parsed kind, scoped to the given project and version.
pub fn scoped_query(kind: &str, project: Option<&str>, version: Option<&str>) -> (r: Result<
    KindQuery,
    AppError,
>)
    ensures
        ({
            let s = trim(kind@);
            if s.len() == 0 || byte_len(s) > 200 {
                r matches Err(e) && crate::error::is_invalid_input(e, "kind must be 1..200 chars"@)
            } else {
                match parse_kind_form(s) {
                    Some(q) => r matches Ok(k) && k@ == (KindQueryV {
                        project: match project {
                            Some(p) => Some(p@),
                            None => None,
                        },
                        version: match version {
                            Some(v) => Some(v@),
                            None => None,
                        },
                        ..q
                    }),
                    None => r matches Err(e) && crate::error::is_invalid_input(
                        e,
                        parse_error_message(s),
                    ),
                }
            }
        }),
{
    match parse_kind_input(kind) {
        Ok(q) => Ok(
            KindQuery {
                kind: q.kind,
                group: q.group,
                api_version: q.api_version,
                project: match project {
                    Some(p) => Some(p.to_owned()),
                    None => None,
                },
                version: match version {
                    Some(v) => Some(v.to_owned()),
                    None => None,
                },
            },
        ),
        Err(e) => Err(e),
    }
}

// ---------------------------------------------------------------- result bodies

/// How an ambiguous candidate is shown: where it is from and the exact form that selects
/// it (`apiVersion:Kind`).
pub open spec fn candidate_json(c: KindRef) -> JsonV {
    let gv = group_version_of(c.api_group@, c.api_version@);
    JsonV::Object(
        seq![
            ("apiVersion"@, JsonV::Str(gv)),
            ("kind"@, JsonV::Str(c.kind@)),
            ("project"@, JsonV::Str(c.project@)),
            ("use"@, JsonV::Str(gv + seq![':'] + c.kind@)),
            ("version"@, JsonV::Str(c.version@)),
        ],
    )
}

/// The body of a failed tool call: the error's kind and message, and for an ambiguous
/// kind the input and every candidate.
pub open spec fn error_body_of(e: AppError) -> JsonV {
    match e {
        AppError::Ambiguous { input, candidates } => JsonV::Object(
            seq![
                ("candidates"@, JsonV::Array(candidates@.map_values(|c: KindRef| candidate_json(c)))),
                ("error"@, JsonV::Str("ambiguous"@)),
                ("input"@, JsonV::Str(input@)),
                ("message"@, JsonV::Str(error_message(e))),
            ],
        ),
        _ => JsonV::Object(
            seq![("error"@, JsonV::Str(error_kind(e))), ("message"@, JsonV::Str(error_message(e)))],
        ),
    }
}

fn text(s: &str) -> (r: Json)
    ensures
        r@ == JsonV::Str(s@),
{
    Json::Str(s.to_owned())
}

fn candidate_value(c: &KindRef) -> (r: Json)
    ensures
        r@ == candidate_json(*c),
{
    let gv = c.group_version();
    let mut use_form = gv.clone();
    let colon = vec![':'];
    push_all(&mut use_form, &colon);
    push_all(&mut use_form, &chars_of(c.kind.as_str()));
    assert(colon@ =~= seq![':']);
    let members = vec![
        ("apiVersion".to_owned(), Json::Str(gv)),
        ("kind".to_owned(), text(c.kind.as_str())),
        ("project".to_owned(), text(c.project.as_str())),
        ("use".to_owned(), Json::Str(use_form)),
        ("version".to_owned(), text(c.version.as_str())),
    ];
    proof {
        lemma_jv_members_index_all(members@);
        assert(jv_members(members@) =~= candidate_json(*c)->Object_0);
    }
    Json::Object(members)
}

/// The JSON body of a failed tool call (see `error_body_of`).
pub fn error_body(e: &AppError) -> (r: Json)
    ensures
        r@ == error_body_of(*e),
{
    let message = e.message();
    match e {
        AppError::Ambiguous { input, candidates } => {
            let mut items: Vec<Json> = Vec::new();
            let mut i: usize = 0;
            while i < candidates.len()
                invariant
                    i <= candidates.len(),
                    items@.len() == i,
                    forall|k: int| 0 <= k < i ==> (#[trigger] items@[k])@ == candidate_json(candidates@[k]),
                decreases candidates.len() - i,
            {
                items.push(candidate_value(&candidates[i]));
                i = i + 1;
            }
            proof {
                lemma_jv_items_index_all(items@);
                assert(jv_items(items@) =~= candidates@.map_values(|c: KindRef| candidate_json(c)));
            }
            let members = vec![
                ("candidates".to_owned(), Json::Array(items)),
                ("error".to_owned(), text("ambiguous")),
                ("input".to_owned(), text(input.as_str())),
                ("message".to_owned(), Json::Str(message)),
            ];
            proof {
                lemma_jv_members_index_all(members@);
                assert(jv_members(members@) =~= error_body_of(*e)->Object_0);
            }
            Json::Object(members)
        },
        _ => {
            let members = vec![("error".to_owned(), text(e.kind())), ("message".to_owned(), Json::Str(message))];
            proof {
                lemma_jv_members_index_all(members@);
                assert(jv_members(members@) =~= error_body_of(*e)->Object_0);
            }
            Json::Object(members)
        },
    }
}

/// The body of a `get_schema` result: where the schema is from and the (sub)schema.
pub open spec fn schema_body_of(k: KindRef, path: Seq<char>, schema: JsonV) -> JsonV {
    JsonV::Object(
        seq![
            ("apiVersion"@, JsonV::Str(group_version_of(k.api_group@, k.api_version@))),
            ("kind"@, JsonV::Str(k.kind@)),
            ("path"@, JsonV::Str(path)),
            ("pinned"@, JsonV::Bool(k.pinned)),
            ("project"@, JsonV::Str(k.project@)),
            ("schema"@, schema),
            ("source"@, JsonV::Str(k.source@)),
            ("version"@, JsonV::Str(k.version@)),
        ],
    )
}

/// The JSON body of a `get_schema` result (see `schema_body_of`).
pub fn schema_body(k: &KindRef, path: &str, schema: Json) -> (r: Json)
    ensures
        r@ == schema_body_of(*k, path@, schema@),
{
    let ghost sv = schema@;
    let members = vec![
        ("apiVersion".to_owned(), Json::Str(k.group_version())),
        ("kind".to_owned(), text(k.kind.as_str())),
        ("path".to_owned(), text(path)),
        ("pinned".to_owned(), Json::Bool(k.pinned)),
        ("project".to_owned(), text(k.project.as_str())),
        ("schema".to_owned(), schema),
        ("source".to_owned(), text(k.source.as_str())),
        ("version".to_owned(), text(k.version.as_str())),
    ];
    proof {
        lemma_jv_members_index_all(members@);
        assert(jv_members(members@) =~= schema_body_of(*k, path@, sv)->Object_0);
    }
    Json::Object(members)
}

// ---------------------------------------------------------------- laws

/// The form an ambiguous answer suggests for selecting a candidate: `apiVersion:Kind`.
pub open spec fn use_form(c: KindRef) -> Seq<char> {
    group_version_of(c.api_group@, c.api_version@) + seq![':'] + c.kind@
}

/// The suggested `apiVersion:Kind` form selects the candidate it is shown for: parsed as a
/// kind input it asks for the candidate's kind, group and API version, provided the
/// group has no `/` or `:`, the version no `:`, and a core-group version no `/`.
pub proof fn lemma_use_form_selects(c: KindRef)
    requires
        !c.api_group@.contains('/'),
        !c.api_group@.contains(':'),
        !c.api_version@.contains(':'),
        c.api_group@.len() == 0 ==> !c.api_version@.contains('/'),
    ensures
        parse_kind_form(use_form(c)) == Some(query_of(c.kind@, Some(c.api_group@), Some(c.api_version@))),
{
    let g = c.api_group@;
    let v = c.api_version@;
    let gv = group_version_of(g, v);
    assert(!gv.contains(':')) by {
        if gv.contains(':') {
            let k = choose|k: int| 0 <= k < gv.len() && gv[k] == ':';
            if g.len() == 0 {
                assert(v[k] == ':');
            } else if k < g.len() {
                assert(g[k] == ':');
            } else if k > g.len() {
                assert(v[k - g.len() - 1] == ':');
            }
        }
    }
    lemma_split_once_at(gv, ':', c.kind@);
    if g.len() == 0 {
        lemma_find_char_absent(v, '/');
        assert(split_api_version_of(gv) == (Seq::<char>::empty(), v));
        assert(Seq::<char>::empty() =~= g);
    } else {
        lemma_split_once_at(g, '/', v);
        assert(split_api_version_of(gv) == (g, v));
    }
}

} // verus!
