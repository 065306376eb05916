use kube_docs_mcp::json::Json;
use kube_docs_mcp::search::{
    annotations_found, check_annotation_key, clamp_limit, dedupe_fields, default_version, get_doc,
    newest_candidate, path_terms, plan_annotation_search, select_doc_hits, sort_versions,
    AnnotationHit, AnnotationQuery, DocCandidate, DocRow, FieldHit, ProjectInfo, VersionInfo,
    stored_json, stored_json_opt, DOC_PAGE_CHARS, MAX_LIMIT,
};
use kube_docs_mcp::AppError;

fn row(text: &str) -> DocRow {
    DocRow {
        project: "k8s".into(),
        version: "1.37.0".into(),
        title: "Pod Topology Spread".into(),
        section_path: "Concepts > Scheduling".into(),
        url: "https://kubernetes.io/x".into(),
        license: "CC-BY-4.0".into(),
        text: text.into(),
    }
}

fn cand(doc_id: i64, version: &str) -> DocCandidate {
    DocCandidate {
        doc_id,
        project: "k8s".into(),
        version: version.into(),
        url: format!("https://x/{doc_id}"),
        license: "CC-BY-4.0".into(),
    }
}

fn field(project: &str, version: &str, kind: &str, path: &str) -> FieldHit {
    FieldHit {
        project: project.into(),
        version: version.into(),
        api_group: "".into(),
        api_version: "v1".into(),
        kind: kind.into(),
        path: path.into(),
        type_: "string".into(),
        required: false,
        description: None,
    }
}

fn vinfo(version: &str) -> VersionInfo {
    VersionInfo { version: version.into(), pinned: true, source: "own".into(), stale: false, kinds: 1, docs: 2 }
}

fn ann(key: &str) -> AnnotationHit {
    AnnotationHit {
        provider: "gke".into(),
        key: key.into(),
        type_: "annotation".into(),
        applies_to: Json::Array(vec![Json::Str("Service".into())]),
        value_type: None,
        allowed_values: None,
        example: None,
        description: "d".into(),
        doc_url: "https://x".into(),
        since: None,
        deprecated: None,
        source: "curated".into(),
    }
}

#[test]
fn limits_are_clamped() {
    assert_eq!(clamp_limit(None, 8), 8);
    assert_eq!(clamp_limit(Some(0), 8), 1);
    assert_eq!(clamp_limit(Some(500), 8), MAX_LIMIT);
    assert_eq!(clamp_limit(Some(5), 10), 5);
}

#[test]
fn pages_through_a_section() {
    let text: String = "ab€".repeat(5000);
    let p = get_doc(42, Some(row(&text)), None).unwrap();
    assert_eq!((p.doc_id, p.offset, p.total_chars), (42, 0, 15000));
    assert_eq!(p.text.chars().count(), DOC_PAGE_CHARS);
    assert_eq!(p.next_offset, Some(DOC_PAGE_CHARS));
    let q = get_doc(42, Some(row(&text)), p.next_offset).unwrap();
    assert_eq!(q.offset, DOC_PAGE_CHARS);
    assert_eq!(q.next_offset, None);
    assert_eq!(format!("{}{}", p.text, q.text), text);
    let end = get_doc(42, Some(row(&text)), Some(99999)).unwrap();
    assert_eq!((end.offset, end.text.as_str(), end.next_offset), (15000, "", None));
    assert_eq!(end.title, "Pod Topology Spread");
}

#[test]
fn missing_doc_is_not_found() {
    match get_doc(-7, None, None) {
        Err(AppError::NotFound(m)) => assert_eq!(m, "doc -7"),
        other => panic!("unexpected {other:?}"),
    }
}

#[test]
fn newest_copy_of_a_section_is_shown() {
    assert_eq!(newest_candidate(&vec![]), None);
    let c = vec![cand(1, "1.36.4"), cand(2, "1.37.0"), cand(3, "v1.37.0"), cand(4, "1.9.0")];
    assert_eq!(newest_candidate(&c), Some(1));
}

#[test]
fn doc_hits_skip_empty_sections_and_stop_at_limit() {
    let sections = vec![vec![cand(1, "1.0"), cand(2, "2.0")], vec![], vec![cand(3, "1.0")], vec![cand(4, "1.0")]];
    assert_eq!(select_doc_hits(&sections, 2), vec![(0, 1), (2, 0)]);
    assert_eq!(select_doc_hits(&sections, 8), vec![(0, 1), (2, 0), (3, 0)]);
    assert_eq!(select_doc_hits(&sections, 0), vec![(0, 1)]);
}

#[test]
fn path_terms_from_query() {
    assert_eq!(path_terms("topologySpread*"), vec!["topologyspread".to_string()]);
    assert_eq!(path_terms("containers.ports ab x** TLS"), vec!["containers.ports".to_string(), "tls".to_string()]);
    assert!(path_terms("  ").is_empty());
}

#[test]
fn fields_are_deduplicated_across_versions() {
    let rows = vec![
        field("k8s", "1.37.0", "Pod", "spec.a"),
        field("k8s", "1.36.4", "Pod", "spec.a"),
        field("k8s", "1.37.0", "Pod", "spec.b"),
        field("cilium", "1.0", "Pod", "spec.a"),
    ];
    let out = dedupe_fields(rows, 10);
    let got: Vec<(String, String, String)> = out.iter().map(|h| (h.project.clone(), h.version.clone(), h.path.clone())).collect();
    assert_eq!(
        got,
        vec![
            ("k8s".to_string(), "1.37.0".to_string(), "spec.a".to_string()),
            ("k8s".to_string(), "1.37.0".to_string(), "spec.b".to_string()),
            ("cilium".to_string(), "1.0".to_string(), "spec.a".to_string()),
        ]
    );
    let rows = vec![field("k8s", "1", "Pod", "a"), field("k8s", "1", "Pod", "b"), field("k8s", "1", "Pod", "c")];
    assert_eq!(dedupe_fields(rows, 2).len(), 2);
}

#[test]
fn annotation_queries_are_planned() {
    let p = plan_annotation_search("  cloud.google.com/ ", Some("Service")).unwrap();
    match p.query {
        AnnotationQuery::KeyPrefix(s) => assert_eq!(s, "cloud.google.com/%"),
        other => panic!("unexpected {other:?}"),
    }
    assert_eq!(p.kind_filter.as_deref(), Some("%\"Service\"%"));
    let p = plan_annotation_search("networking.gke.io", None).unwrap();
    assert!(matches!(p.query, AnnotationQuery::KeyPrefix(_)));
    assert!(p.kind_filter.is_none());
    let p = plan_annotation_search("internal load balancer", Some("Ser_vi%ce\"")).unwrap();
    match p.query {
        AnnotationQuery::Words(s) => assert_eq!(s, "\"internal\" \"load\" \"balancer\""),
        other => panic!("unexpected {other:?}"),
    }
    assert_eq!(p.kind_filter.as_deref(), Some("%\"Service\"%"));
    let p = plan_annotation_search("a.b c", None).unwrap();
    assert!(matches!(p.query, AnnotationQuery::Words(_)));
}

#[test]
fn annotation_query_errors() {
    for q in ["   ", ""] {
        match plan_annotation_search(q, None) {
            Err(AppError::InvalidInput(m)) => assert_eq!(m, "query must be 1..256 chars"),
            other => panic!("unexpected {other:?}"),
        }
    }
    match plan_annotation_search(&"é".repeat(129), None) {
        Err(AppError::InvalidInput(m)) => assert_eq!(m, "query must be 1..256 chars"),
        other => panic!("unexpected {other:?}"),
    }
    match plan_annotation_search("(( ))", None) {
        Err(AppError::InvalidInput(m)) => assert_eq!(m, "query has no searchable terms"),
        other => panic!("unexpected {other:?}"),
    }
}

#[test]
fn exact_annotation_lookup() {
    assert_eq!(check_annotation_key("  kubernetes.io/ingress.class ").unwrap(), "kubernetes.io/ingress.class");
    match check_annotation_key(" ") {
        Err(AppError::InvalidInput(m)) => assert_eq!(m, "key must be 1..256 chars"),
        other => panic!("unexpected {other:?}"),
    }
    match annotations_found("nope/x", vec![]) {
        Err(AppError::NotFound(m)) => assert_eq!(m, "annotation 'nope/x'; try search_annotations with a prefix"),
        other => panic!("unexpected {other:?}"),
    }
    let found = annotations_found("cloud.google.com/neg", vec![ann("cloud.google.com/neg")]).unwrap();
    assert_eq!(found.len(), 1);
}

#[test]
fn versions_listed_newest_first() {
    let out = sort_versions(vec![vinfo("1.9.0"), vinfo("v1.10.0"), vinfo("latest"), vinfo("1.10.0")]);
    let got: Vec<&str> = out.iter().map(|v| v.version.as_str()).collect();
    assert_eq!(got, vec!["v1.10.0", "1.10.0", "1.9.0", "latest"]);
    let p = ProjectInfo::new("k8s".into(), "Kubernetes".into(), "core".into(), "https://k8s.io".into(), "CC".into(), vec![vinfo("1.36.4"), vinfo("1.37.0")]);
    assert_eq!(p.versions[0].version, "1.37.0");
    assert_eq!(p.slug, "k8s");
}

#[test]
fn default_version_prefers_pinned_then_newest() {
    let vs = vec![("2.0.0".to_string(), 0), ("1.20.1".to_string(), 1), ("1.9.0".to_string(), 1)];
    assert_eq!(default_version("k8s", &vs).unwrap(), "1.20.1");
    match default_version("nope", &vec![]) {
        Err(AppError::NotFound(m)) => assert_eq!(m, "project 'nope'"),
        other => panic!("unexpected {other:?}"),
    }
}

#[test]
fn same_section_in_two_versions_is_one_hit() {
    let sections = vec![vec![cand(2, "1.36.4"), cand(1, "1.37.0")]];
    let hits = select_doc_hits(&sections, 8);
    assert_eq!(hits.len(), 1);
    assert_eq!(sections[0][hits[0].1].version, "1.37.0");
}

#[test]
fn kind_listing_defaults_to_the_pinned_release() {
    assert_eq!(default_version("cilium", &vec![("1.20.1".to_string(), 1)]).unwrap(), "1.20.1");
    assert_eq!(default_version("gke", &vec![("latest".to_string(), 0)]).unwrap(), "latest");
}

#[test]
fn stored_json_columns_are_read() {
    match stored_json(br#"["Service","Ingress"]"#) {
        Json::Array(a) => {
            assert_eq!(a.len(), 2);
            assert!(matches!(&a[0], Json::Str(k) if k == "Service"));
        },
        other => panic!("{other:?}"),
    }
    assert!(matches!(stored_json(b"not json"), Json::Null));
    assert!(matches!(stored_json(b""), Json::Null));
    assert!(stored_json_opt(None).is_none());
    assert!(stored_json_opt(Some(b"{broken")).is_none());
    assert!(matches!(stored_json_opt(Some(br#"["a","b"]"#)), Some(Json::Array(a)) if a.len() == 2));
}
