use kube_docs_mcp::json::{to_text, Json};
use kube_docs_mcp::mcp::tools::{error_body, metric_label, schema_body, scoped_query, ValidateParams};
use kube_docs_mcp::schema::store::{parse_kind_input, KindRef};
use kube_docs_mcp::AppError;

fn kref(project: &str, group: &str, api_version: &str) -> KindRef {
    KindRef {
        kind_id: 3,
        project: project.into(),
        version: "1.0".into(),
        pinned: true,
        source: "own".into(),
        api_group: group.into(),
        api_version: api_version.into(),
        kind: "BackendConfig".into(),
        scope: None,
        description: None,
    }
}

#[test]
fn metric_labels() {
    assert_eq!(metric_label("explain", Some("cert-manager")), "explain:cert-manager");
    assert_eq!(metric_label("explain", Some("bad slug")), "explain");
    assert_eq!(metric_label("explain", Some(&"a".repeat(41))), "explain");
    assert_eq!(metric_label("explain", Some(&"a".repeat(40))), format!("explain:{}", "a".repeat(40)));
    assert_eq!(metric_label("list_projects", None), "list_projects");
}

#[test]
fn error_messages() {
    assert_eq!(AppError::NotReady.message(), "index not loaded yet");
    assert_eq!(AppError::InvalidInput("x".into()).message(), "invalid input: x");
    assert_eq!(AppError::NotFound("doc 3".into()).message(), "not found: doc 3");
    assert_eq!(AppError::Timeout(8).message(), "timed out after 8s");
    assert_eq!(AppError::Db("locked".into()).message(), "database error: locked");
    assert_eq!(AppError::Internal("boom".into()).message(), "boom");
    let amb = AppError::Ambiguous { input: "BackendConfig".into(), candidates: vec![kref("gke", "cloud.google.com", "v1")] };
    assert_eq!(
        amb.message(),
        "ambiguous kind 'BackendConfig': 1 candidates; pass `project` or use `group/version/Kind`"
    );
    assert_eq!(amb.kind(), "ambiguous");
    assert_eq!(AppError::Timeout(1).kind(), "timeout");
}

#[test]
fn error_bodies() {
    let b = to_text(&error_body(&AppError::NotFound("kind 'X' not in index".into())));
    assert_eq!(b, r#"{"error":"not_found","message":"not found: kind 'X' not in index"}"#);
    let amb = AppError::Ambiguous {
        input: "BackendConfig".into(),
        candidates: vec![kref("gke", "cloud.google.com", "v1"), kref("kubeschemas", "", "v1")],
    };
    let b = to_text(&error_body(&amb));
    assert_eq!(
        b,
        [
            r#"{"candidates":[{"apiVersion":"cloud.google.com/v1","kind":"BackendConfig","project":"gke","use":"cloud.google.com/v1:BackendConfig","version":"1.0"},"#,
            r#"{"apiVersion":"v1","kind":"BackendConfig","project":"kubeschemas","use":"v1:BackendConfig","version":"1.0"}],"#,
            r#""error":"ambiguous","input":"BackendConfig","message":"ambiguous kind 'BackendConfig': 2 candidates; pass `project` or use `group/version/Kind`"}"#,
        ]
        .concat()
    );
}

#[test]
fn use_form_selects_the_candidate() {
    let c = kref("gke", "cloud.google.com", "v1");
    let q = parse_kind_input(&format!("{}:{}", c.group_version(), c.kind)).unwrap();
    assert_eq!(q.kind, c.kind);
    assert_eq!(q.group.as_deref(), Some("cloud.google.com"));
    assert_eq!(q.api_version.as_deref(), Some("v1"));
}

#[test]
fn schema_bodies() {
    let b = schema_body(&kref("gke", "cloud.google.com", "v1"), "spec", Json::Bool(true));
    assert_eq!(
        to_text(&b),
        r#"{"apiVersion":"cloud.google.com/v1","kind":"BackendConfig","path":"spec","pinned":true,"project":"gke","schema":true,"source":"own","version":"1.0"}"#
    );
}

#[test]
fn scoped_queries() {
    let q = scoped_query("Pod", Some("k8s"), Some("1.37.0")).unwrap();
    assert_eq!(q.kind, "Pod");
    assert_eq!(q.project.as_deref(), Some("k8s"));
    assert_eq!(q.version.as_deref(), Some("1.37.0"));
    assert!(q.group.is_none());
    assert!(scoped_query("a/b/c/d", None, None).is_err());
}

#[test]
fn strict_by_default() {
    let p = ValidateParams { yaml: String::new(), k8s_version: None, strict: None };
    assert!(p.strict_mode());
    let p = ValidateParams { yaml: String::new(), k8s_version: None, strict: Some(false) };
    assert!(!p.strict_mode());
}
