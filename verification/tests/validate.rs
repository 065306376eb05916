use kube_docs_mcp::json::Json;
use kube_docs_mcp::schema::store::KindRef;
use kube_docs_mcp::validate::{
    check_document, check_manifest_size, document_query, parse_yaml, schema_for_document,
    sort_errors, strictify, FieldError, SchemaInfo, ValidationReport, MAX_INPUT_BYTES,
};
use kube_docs_mcp::AppError;
use serde_json::Value;

fn to_json(v: &Value) -> Json {
    match v {
        Value::Null => Json::Null,
        Value::Bool(b) => Json::Bool(*b),
        Value::Number(n) => Json::Number(n.to_string()),
        Value::String(s) => Json::Str(s.clone()),
        Value::Array(a) => Json::Array(a.iter().map(to_json).collect()),
        Value::Object(m) => Json::Object(m.iter().map(|(k, v)| (k.clone(), to_json(v))).collect()),
    }
}

fn j(text: &str) -> Json {
    to_json(&serde_json::from_str::<Value>(text).unwrap())
}

fn is_false(v: Option<&Json>) -> bool {
    matches!(v, Some(Json::Bool(false)))
}

fn kref(project: &str, version: &str) -> KindRef {
    KindRef {
        kind_id: 9,
        project: project.into(),
        version: version.into(),
        pinned: true,
        source: "own".into(),
        api_group: "".into(),
        api_version: "v1".into(),
        kind: "Pod".into(),
        scope: None,
        description: None,
    }
}

fn err(path: &str) -> FieldError {
    FieldError { path: path.into(), message: format!("bad {path}"), schema_path: "/x".into() }
}

#[test]
fn strictify_adds_additional_properties() {
    let mut s = j(r#"{"type":"object","properties":{"a":{"type":"object","properties":{"b":{"type":"string"}}},
        "free":{"type":"object","x-kubernetes-preserve-unknown-fields":true,"properties":{}}}}"#);
    strictify(&mut s);
    assert!(is_false(s.get("additionalProperties")));
    assert!(is_false(s.get("properties").and_then(|p| p.get("a")).and_then(|a| a.get("additionalProperties"))));
    assert!(s
        .get("properties")
        .and_then(|p| p.get("free"))
        .and_then(|f| f.get("additionalProperties"))
        .is_none());
}

#[test]
fn strictify_keeps_declared_additional_properties_and_walks_lists() {
    let mut s = j(r##"{"definitions":{"M":{"type":"object","properties":{"x":{}},"additionalProperties":{"type":"string"}}},
        "anyOf":[{"properties":{"y":{}}}],"items":{"type":["null","object"],"properties":{"z":{}}}}"##);
    strictify(&mut s);
    let m = s.get("definitions").and_then(|d| d.get("M")).unwrap();
    assert!(matches!(m.get("additionalProperties"), Some(Json::Object(_))));
    // an object with properties but no type is still an object schema
    let any = match s.get("anyOf") {
        Some(Json::Array(a)) => &a[0],
        other => panic!("unexpected {other:?}"),
    };
    assert!(is_false(any.get("additionalProperties")));
    assert!(is_false(s.get("items").and_then(|i| i.get("additionalProperties"))));
    // the root has no properties, so it stays open
    assert!(s.get("additionalProperties").is_none());
}

#[test]
fn manifest_size_limit() {
    assert!(check_manifest_size(&"x".repeat(MAX_INPUT_BYTES)).is_ok());
    match check_manifest_size(&"x".repeat(MAX_INPUT_BYTES + 1)) {
        Err(AppError::InvalidInput(m)) => assert_eq!(m, "manifest larger than 524288 bytes"),
        other => panic!("unexpected {other:?}"),
    }
}

#[test]
fn report_counts_each_status() {
    let mut rep = ValidationReport::new(true);
    assert!(rep.inspect(0, &Json::Null).is_none());
    assert!(rep.inspect(1, &j("[1,2]")).is_none());
    assert!(rep.inspect(2, &j(r#"{"kind":"Pod","metadata":{"name":"p"}}"#)).is_none());
    let l = rep.inspect(3, &j(r#"{"apiVersion":"v1","kind":"Pod","metadata":{"name":"web"}}"#)).unwrap();
    assert_eq!((l.index, l.api_version.as_str(), l.kind.as_str(), l.name.as_deref()), (3, "v1", "Pod", Some("web")));
    let u = rep.inspect(4, &j(r#"{"apiVersion":"x.io/v1","kind":"Thing"}"#)).unwrap();
    rep.record_unknown(u);
    rep.record_checked(l, &kref("k8s", "1.36.4"), vec![err("/spec"), err("/a")], Some("1.37.0"));
    assert_eq!((rep.valid, rep.invalid, rep.unknown_kind, rep.error), (0, 1, 1, 2));
    assert_eq!(rep.documents.len(), 4);
    assert_eq!(rep.documents[0].status, "error");
    assert_eq!(rep.documents[0].message.as_deref(), Some("document is not a mapping"));
    assert_eq!(rep.documents[1].message.as_deref(), Some("missing apiVersion or kind"));
    assert_eq!(rep.documents[1].kind.as_deref(), Some("Pod"));
    assert_eq!(rep.documents[1].name.as_deref(), Some("p"));
    assert_eq!(
        rep.documents[2].message.as_deref(),
        Some("no schema indexed for x.io/v1/Thing; try list_kinds or search_fields")
    );
    let checked = &rep.documents[3];
    assert_eq!(checked.status, "invalid");
    let paths: Vec<&str> = checked.errors.iter().map(|e| e.path.as_str()).collect();
    assert_eq!(paths, vec!["/a", "/spec"]);
    assert_eq!(checked.message.as_deref(), Some("k8s version 1.37.0 not indexed; validated against 1.36.4"));
    assert_eq!(checked.schema.as_ref().map(|s| s.version.as_str()), Some("1.36.4"));
}

#[test]
fn valid_documents_have_no_note_at_the_requested_version() {
    let mut rep = ValidationReport::new(false);
    let l = rep.inspect(0, &j(r#"{"apiVersion":"v1","kind":"Pod"}"#)).unwrap();
    rep.record_checked(l, &kref("k8s", "1.37.0"), vec![], Some("1.37.0"));
    assert_eq!(rep.valid, 1);
    assert_eq!(rep.documents[0].status, "valid");
    assert!(rep.documents[0].message.is_none());
    assert!(!rep.strict);
}

#[test]
fn errors_are_capped_per_document() {
    let mut rep = ValidationReport::new(true);
    let l = rep.inspect(0, &j(r#"{"apiVersion":"v1","kind":"Pod"}"#)).unwrap();
    let errs: Vec<FieldError> = (0..60).map(|i| err(&format!("/e{i:02}"))).collect();
    rep.record_checked(l, &kref("cilium", "1.0"), errs, None);
    assert_eq!(rep.documents[0].errors.len(), 50);
}

#[test]
fn picks_requested_k8s_version_or_the_best() {
    let refs = vec![kref("k8s", "1.37.0"), kref("k8s", "1.36.4")];
    let r = schema_for_document(refs, Some("1.36.4")).unwrap();
    assert_eq!(r.version, "1.36.4");
    let refs = vec![kref("k8s", "1.37.0"), kref("k8s", "1.36.4")];
    assert_eq!(schema_for_document(refs, Some("1.20.1")).unwrap().version, "1.37.0");
    let refs = vec![kref("cilium", "1.36.4"), kref("k8s", "1.37.0")];
    assert_eq!(schema_for_document(refs, None).unwrap().project, "cilium");
    assert!(schema_for_document(vec![], Some("1.37.0")).is_none());
}

#[test]
fn document_query_uses_group_and_version() {
    let q = document_query("cilium.io/v2", "CiliumNetworkPolicy");
    assert_eq!(q.kind, "CiliumNetworkPolicy");
    assert_eq!(q.group.as_deref(), Some("cilium.io"));
    assert_eq!(q.api_version.as_deref(), Some("v2"));
    assert!(q.project.is_none() && q.version.is_none());
    let q = document_query("v1", "Pod");
    assert_eq!(q.group.as_deref(), Some(""));
}

#[test]
fn errors_sorted_by_path_stably() {
    let mut a = err("/b");
    a.message = "first".into();
    let mut b = err("/b");
    b.message = "second".into();
    let out = sort_errors(vec![a, err("/a"), b, err("")]);
    let got: Vec<(&str, &str)> = out.iter().map(|e| (e.path.as_str(), e.message.as_str())).collect();
    assert_eq!(got, vec![("", "bad "), ("/a", "bad /a"), ("/b", "first"), ("/b", "second")]);
}

#[test]
fn schema_info_copies_the_kind() {
    let s = SchemaInfo::from(&kref("k8s", "1.37.0"));
    assert_eq!((s.project.as_str(), s.version.as_str(), s.kind.as_str(), s.api_version.as_str()), ("k8s", "1.37.0", "Pod", "v1"));
    assert!(s.pinned);
}

#[test]
fn parses_multi_doc_and_rejects_big() {
    let docs = parse_yaml("a: 1\n---\nb: [1,2]\n---\n").unwrap_or_default();
    assert_eq!(docs.len(), 2);
    assert!(parse_yaml(&"x".repeat(MAX_INPUT_BYTES + 1)).is_err());
    assert!(parse_yaml("a: [unclosed").is_err());
}

#[test]
fn compile_and_validate_draft4() {
    let s = j(r##"{"$schema":"http://json-schema.org/draft-04/schema#","$ref":"#/definitions/X",
        "definitions":{"X":{"type":"object","required":["a"],"properties":{"a":{"type":"integer"}}}}}"##);
    let v = check_document(&s, &j(r#"{"a":1}"#), true).ok();
    assert!(v.is_some());
    let v = v.unwrap_or_else(|| unreachable!());
    assert!(v.is_empty());
    let errs: Vec<String> = check_document(&s, &j(r#"{"a":"x","zz":1}"#), true)
        .unwrap_or_default()
        .into_iter()
        .map(|e| e.path)
        .collect();
    assert!(errs.iter().any(|p| p == "/a"), "{errs:?}");
    assert!(errs.iter().any(|p| p.is_empty()), "{errs:?}"); // additionalProperties at root
}

#[test]
fn yaml_documents_become_json() {
    let docs = parse_yaml("kind: Pod\nspec:\n  n: 3\n---\n- x\n").unwrap();
    assert_eq!(docs.len(), 2);
    assert!(matches!(docs[0].get("kind"), Some(Json::Str(k)) if k == "Pod"));
    assert!(matches!(docs[0].get("spec").and_then(|s| s.get("n")), Some(Json::Number(n)) if n == "3"));
    assert!(matches!(&docs[1], Json::Array(a) if a.len() == 1));
}

#[test]
fn yaml_errors_and_budget() {
    match parse_yaml("a: [unclosed") {
        Err(AppError::InvalidInput(m)) => assert!(m.starts_with("YAML parse error: "), "{m}"),
        other => panic!("{other:?}"),
    }
    let many = "a: 1\n---\n".repeat(201);
    match parse_yaml(&many) {
        Err(AppError::InvalidInput(m)) => assert!(m.starts_with("YAML parse error: "), "{m}"),
        other => panic!("{other:?}"),
    }
    match parse_yaml(&"x".repeat(MAX_INPUT_BYTES + 1)) {
        Err(AppError::InvalidInput(m)) => assert_eq!(m, "manifest larger than 524288 bytes"),
        other => panic!("{other:?}"),
    }
}

#[test]
fn strict_mode_reports_unknown_fields_only_when_strict() {
    let s = j(r#"{"type":"object","properties":{"a":{"type":"integer"}}}"#);
    let doc = j(r#"{"a":1,"zz":2}"#);
    assert_eq!(check_document(&s, &doc, true).unwrap().len(), 1);
    assert!(check_document(&s, &doc, false).unwrap().is_empty());
}

#[test]
fn validator_errors_are_capped() {
    let mut props = String::new();
    let mut doc = String::new();
    for i in 0..60 {
        props.push_str(&format!("{}\"p{i}\":{{\"type\":\"integer\"}}", if i > 0 { "," } else { "" }));
        doc.push_str(&format!("{}\"p{i}\":\"x\"", if i > 0 { "," } else { "" }));
    }
    let s = j(&format!("{{\"type\":\"object\",\"properties\":{{{props}}}}}"));
    let d = j(&format!("{{{doc}}}"));
    assert_eq!(check_document(&s, &d, false).unwrap().len(), 50);
}

#[test]
fn uncompilable_schema_is_internal() {
    let s = j(r#"{"type":12}"#);
    match check_document(&s, &j("{}"), false) {
        Err(AppError::Internal(m)) => assert!(m.starts_with("schema compile failed: "), "{m}"),
        other => panic!("{other:?}"),
    }
}

#[test]
fn strictify_twice_is_strictify_once() {
    let mut s = j(r#"{"type":"object","properties":{"a":{"type":"object","properties":{"b":{"type":"string"}}}},
        "items":{"properties":{}},"allOf":[{"type":"object","properties":{}}]}"#);
    strictify(&mut s);
    let once = kube_docs_mcp::json::to_text(&s);
    strictify(&mut s);
    assert_eq!(kube_docs_mcp::json::to_text(&s), once);
}
