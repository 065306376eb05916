use std::sync::Arc;

use kube_docs_mcp::json::Json;
use kube_docs_mcp::schema::store::{
    api_version_priority, decode_schema, load_schema, parse_kind_input, pick, plural_fallback, rank_cmp, rank_sort,
    split_api_version, KindQuery, KindRef, SchemaCache,
};
use kube_docs_mcp::AppError;

fn kref(project: &str, version: &str, pinned: bool, group: &str, api_version: &str, kind: &str) -> KindRef {
    KindRef {
        kind_id: 1,
        project: project.into(),
        version: version.into(),
        pinned,
        source: "own".into(),
        api_group: group.into(),
        api_version: api_version.into(),
        kind: kind.into(),
        scope: None,
        description: None,
    }
}

#[test]
fn parses_kind_forms() {
    let q = parse_kind_input("Pod").ok();
    assert_eq!(q.as_ref().map(|q| q.kind.as_str()), Some("Pod"));
    let q = parse_kind_input("apps/v1/Deployment").ok();
    assert_eq!(q.as_ref().and_then(|q| q.group.clone()), Some("apps".into()));
    assert_eq!(q.as_ref().and_then(|q| q.api_version.clone()), Some("v1".into()));
    let q = parse_kind_input("v1/Pod").ok();
    assert_eq!(q.as_ref().and_then(|q| q.group.clone()), Some(String::new()));
    let q = parse_kind_input("Certificate.cert-manager.io").ok();
    assert_eq!(q.as_ref().and_then(|q| q.group.clone()), Some("cert-manager.io".into()));
    let q = parse_kind_input("cilium.io/v2:CiliumNetworkPolicy").ok();
    assert_eq!(q.as_ref().map(|q| q.kind.as_str()), Some("CiliumNetworkPolicy"));
    assert!(parse_kind_input("a/b/c/d").is_err());
}

#[test]
fn api_version_order() {
    assert!(api_version_priority("v1") > api_version_priority("v1beta1"));
    assert!(api_version_priority("v2") > api_version_priority("v1"));
    assert!(api_version_priority("v1beta2") > api_version_priority("v1beta1"));
    assert!(api_version_priority("v1beta1") > api_version_priority("v2alpha1"));
}

#[test]
fn api_version_priority_values() {
    assert_eq!(api_version_priority("v1"), (3, 1, 0, 0));
    assert_eq!(api_version_priority("v2beta3"), (2, 2, 0, 3));
    assert_eq!(api_version_priority("v1alpha1"), (1, 1, 0, 1));
    assert_eq!(api_version_priority("v3rc1"), (0, 3, 0, 0));
    assert_eq!(api_version_priority("vbeta"), (2, 0, 0, 0));
}

#[test]
fn kind_input_errors() {
    match parse_kind_input("   ") {
        Err(AppError::InvalidInput(m)) => assert_eq!(m, "kind must be 1..200 chars"),
        other => panic!("unexpected {other:?}"),
    }
    match parse_kind_input(&"K".repeat(201)) {
        Err(AppError::InvalidInput(m)) => assert_eq!(m, "kind must be 1..200 chars"),
        other => panic!("unexpected {other:?}"),
    }
    match parse_kind_input(" a/b/c/d ") {
        Err(AppError::InvalidInput(m)) => assert_eq!(m, "cannot parse kind 'a/b/c/d'"),
        other => panic!("unexpected {other:?}"),
    }
    match parse_kind_input("v1/") {
        Err(AppError::InvalidInput(m)) => assert_eq!(m, "cannot parse kind 'v1/'"),
        other => panic!("unexpected {other:?}"),
    }
}

#[test]
fn kind_input_full_query() {
    let q = parse_kind_input("  apps/v1:Deployment ").unwrap();
    assert_eq!(
        q,
        KindQuery {
            kind: "Deployment".into(),
            group: Some("apps".into()),
            api_version: Some("v1".into()),
            project: None,
            version: None,
        }
    );
    let q = parse_kind_input("v1:Pod").unwrap();
    assert_eq!(q.group, Some(String::new()));
    assert_eq!(q.api_version, Some("v1".into()));
}

#[test]
fn splits_api_versions() {
    assert_eq!(split_api_version("apps/v1"), ("apps".to_string(), "v1".to_string()));
    assert_eq!(split_api_version("v1"), (String::new(), "v1".to_string()));
    assert_eq!(split_api_version("a/b/c"), ("a".to_string(), "b/c".to_string()));
}

#[test]
fn group_version_of_core_and_named_groups() {
    assert_eq!(kref("k8s", "1", true, "", "v1", "Pod").group_version(), "v1");
    assert_eq!(kref("k8s", "1", true, "apps", "v1", "Deployment").group_version(), "apps/v1");
}

#[test]
fn plural_kind_falls_back_to_singular() {
    let q = parse_kind_input("pods").unwrap();
    let s = plural_fallback(&q).unwrap();
    assert_eq!(s.kind, "pod");
    assert!(plural_fallback(&parse_kind_input("ess").unwrap()).is_none());
    assert!(plural_fallback(&parse_kind_input("Pod").unwrap()).is_none());
}

#[test]
fn ranks_pinned_newest_then_api_priority() {
    let refs = vec![
        kref("kubeschemas", "9.9.9", false, "a", "v1", "X"),
        kref("k8s", "1.9.0", true, "a", "v1", "X"),
        kref("k8s", "1.10.0", true, "a", "v1beta1", "X"),
        kref("k8s", "1.10.0", true, "a", "v1", "X"),
    ];
    let r = rank_sort(refs);
    let got: Vec<(String, String, bool)> = r.iter().map(|k| (k.version.clone(), k.api_version.clone(), k.pinned)).collect();
    assert_eq!(
        got,
        vec![
            ("1.10.0".to_string(), "v1".to_string(), true),
            ("1.10.0".to_string(), "v1beta1".to_string(), true),
            ("1.9.0".to_string(), "v1".to_string(), true),
            ("9.9.9".to_string(), "v1".to_string(), false),
        ]
    );
}

#[test]
fn rank_sort_keeps_ties_in_order() {
    let mut a = kref("p", "1.0", true, "g", "v1", "X");
    a.kind_id = 1;
    let mut b = kref("q", "1.0", true, "g", "v1", "X");
    b.kind_id = 2;
    let r = rank_sort(vec![a, b]);
    assert_eq!(r[0].kind_id, 1);
    assert_eq!(r[1].kind_id, 2);
}

#[test]
fn pick_one_or_ambiguous_or_not_found() {
    match pick("Nope", vec![]) {
        Err(AppError::NotFound(m)) => assert_eq!(m, "kind 'Nope' not in index"),
        other => panic!("unexpected {other:?}"),
    }
    let one = pick("Pod", vec![kref("k8s", "1.37.0", true, "", "v1", "Pod"), kref("k8s", "1.36.4", true, "", "v1", "Pod")]).unwrap();
    assert_eq!(one.version, "1.37.0");
    match pick(
        "BackendConfig",
        vec![
            kref("gke", "1", true, "cloud.google.com", "v1", "BackendConfig"),
            kref("gke", "1", true, "cloud.google.com", "v1beta1", "BackendConfig"),
            kref("kubeschemas", "0", false, "cloud.google.com", "v1", "BackendConfig"),
            kref("gke", "1", true, "networking.gke.io", "v1", "BackendConfig"),
        ],
    ) {
        Err(AppError::Ambiguous { input, candidates }) => {
            assert_eq!(input, "BackendConfig");
            let origins: Vec<(String, String)> = candidates.iter().map(|c| (c.project.clone(), c.api_group.clone())).collect();
            assert_eq!(
                origins,
                vec![
                    ("gke".to_string(), "cloud.google.com".to_string()),
                    ("kubeschemas".to_string(), "cloud.google.com".to_string()),
                    ("gke".to_string(), "networking.gke.io".to_string()),
                ]
            );
            assert_eq!(candidates[0].api_version, "v1");
        }
        other => panic!("unexpected {other:?}"),
    }
}

#[test]
fn decodes_stored_schemas() {
    let text = br#"{"type":"object"}"#.to_vec();
    let blob = zstd::stream::encode_all(&text[..], 3).unwrap();
    assert_ne!(blob, text);
    assert_eq!(decode_schema(7, Some(blob)).unwrap(), text);
    match decode_schema(7, None) {
        Err(AppError::NotFound(m)) => assert_eq!(m, "kind id 7"),
        other => panic!("unexpected {other:?}"),
    }
    match decode_schema(-3, None) {
        Err(AppError::NotFound(m)) => assert_eq!(m, "kind id -3"),
        other => panic!("unexpected {other:?}"),
    }
    assert!(matches!(decode_schema(1, Some(b"not zstd".to_vec())), Err(AppError::Internal(_))));
}

fn text(s: &str) -> Arc<Json> {
    Arc::new(Json::Str(s.into()))
}

fn cached_text(c: &mut SchemaCache, id: i64) -> Option<String> {
    c.get(id).map(|v| match &*v {
        Json::Str(s) => s.clone(),
        other => panic!("unexpected {other:?}"),
    })
}

#[test]
fn schema_cache_reads_back_writes() {
    let mut c = SchemaCache::new(2);
    assert_eq!(cached_text(&mut c, 1), None);
    c.put(1, text("one"));
    c.put(2, text("two"));
    assert_eq!(cached_text(&mut c, 1).as_deref(), Some("one"));
    // 2 is now the least recently used and makes room for 3
    c.put(3, text("three"));
    assert_eq!(cached_text(&mut c, 2), None);
    assert_eq!(cached_text(&mut c, 1).as_deref(), Some("one"));
    assert_eq!(cached_text(&mut c, 3).as_deref(), Some("three"));
    c.put(3, text("drei"));
    assert_eq!(cached_text(&mut c, 3).as_deref(), Some("drei"));
    c.clear();
    assert_eq!(cached_text(&mut c, 1), None);
}

#[test]
fn schema_cache_holds_at_least_one() {
    let mut c = SchemaCache::new(0);
    c.put(1, text("a"));
    assert_eq!(cached_text(&mut c, 1).as_deref(), Some("a"));
    c.put(2, text("b"));
    assert_eq!(cached_text(&mut c, 1), None);
    let mut d = SchemaCache::default();
    for i in 0..64 {
        d.put(i, text("x"));
    }
    assert!(d.get(0).is_some());
}

#[test]
fn prefers_newest_pinned_and_stable_api_versions() {
    let pods = rank_sort(vec![kref("k8s", "1.36.4", true, "", "v1", "Pod"), kref("k8s", "1.37.0", true, "", "v1", "Pod")]);
    let r = pick("Pod", pods).unwrap();
    assert_eq!((r.project.as_str(), r.version.as_str(), r.api_version.as_str()), ("k8s", "1.37.0", "v1"));
    let cnp = rank_sort(vec![
        kref("cilium", "1.20.1", true, "cilium.io", "v2alpha1", "CiliumNetworkPolicy"),
        kref("cilium", "1.20.1", true, "cilium.io", "v2", "CiliumNetworkPolicy"),
    ]);
    assert_eq!(pick("CiliumNetworkPolicy", cnp).unwrap().api_version, "v2");
    let mut mixed = rank_sort(vec![kref("k8s", "1.37.0", true, "", "v1", "Pod")]);
    mixed.extend(rank_sort(vec![kref("gke", "latest", false, "cloud.google.com", "v1", "BackendConfig")]));
    match pick("Pod", mixed) {
        Err(AppError::Ambiguous { candidates, .. }) => assert_eq!(candidates.len(), 2),
        other => panic!("expected ambiguous, got {other:?}"),
    }
}

#[test]
fn rank_comparison() {
    let a = kref("k8s", "1.37.0", true, "", "v1", "Pod");
    let b = kref("k8s", "1.36.4", true, "", "v1", "Pod");
    let c = kref("x", "9.0", false, "", "v1", "Pod");
    assert_eq!(rank_cmp(&a, &b), std::cmp::Ordering::Less);
    assert_eq!(rank_cmp(&b, &a), std::cmp::Ordering::Greater);
    assert_eq!(rank_cmp(&b, &c), std::cmp::Ordering::Less);
    assert_eq!(rank_cmp(&a, &a), std::cmp::Ordering::Equal);
}

#[test]
fn loads_stored_schemas_as_json() {
    let text = br#"{"type":"object","properties":{"n":{"minimum":1.5}}}"#.to_vec();
    let blob = zstd::stream::encode_all(&text[..], 3).unwrap();
    let s = load_schema(7, Some(blob)).unwrap();
    assert!(matches!(s.get("type"), Some(Json::Str(t)) if t == "object"));
    assert!(matches!(
        s.get("properties").and_then(|p| p.get("n")).and_then(|n| n.get("minimum")),
        Some(Json::Number(x)) if x == "1.5"
    ));
    match load_schema(7, None) {
        Err(AppError::NotFound(m)) => assert_eq!(m, "kind id 7"),
        other => panic!("unexpected {other:?}"),
    }
    assert!(matches!(load_schema(1, Some(b"not zstd".to_vec())), Err(AppError::Internal(_))));
    let bad = zstd::stream::encode_all(&b"{not json"[..], 3).unwrap();
    assert!(matches!(load_schema(1, Some(bad)), Err(AppError::Internal(_))));
}
