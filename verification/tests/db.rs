use kube_docs_mcp::db::{fts_query, like_prefix, version_key, MAX_QUERY_CHARS};
use kube_docs_mcp::AppError;

#[test]
fn sanitizes_fts() {
    assert_eq!(fts_query("foo bar").ok(), Some("\"foo\" \"bar\"".into()));
    assert_eq!(
        fts_query("topo* \"OR\" x(y)").ok(),
        Some("\"topo\"* \"OR\" \"xy\"".into())
    );
    assert_eq!(
        fts_query("alb.ingress.kubernetes.io/scheme").ok(),
        Some("\"alb.ingress.kubernetes.io/scheme\"".into())
    );
    assert!(fts_query("   ").is_err());
    assert!(fts_query(&"a".repeat(300)).is_err());
}

#[test]
fn versions_sort_naturally() {
    assert!(version_key("1.10.0") > version_key("1.9.11"));
    assert!(version_key("v0.94.0") > version_key("0.93.1"));
}

#[test]
fn fts_query_errors_name_their_cause() {
    match fts_query(&"a".repeat(MAX_QUERY_CHARS + 1)) {
        Err(AppError::InvalidInput(m)) => assert_eq!(m, "query longer than 256 chars"),
        other => panic!("unexpected {other:?}"),
    }
    match fts_query("() \"\" ***") {
        Err(AppError::InvalidInput(m)) => assert_eq!(m, "query has no searchable terms"),
        other => panic!("unexpected {other:?}"),
    }
    // exactly the limit is accepted
    assert!(fts_query(&"a".repeat(MAX_QUERY_CHARS)).is_ok());
}

#[test]
fn fts_terms_are_always_quoted() {
    // operators, column filters and NEAR groups lose their meaning inside quotes
    let q = fts_query("title:kube NEAR(a b) -x ^y").unwrap();
    assert_eq!(q, "\"titlekube\" \"NEARa\" \"b\" \"-x\" \"y\"");
    for term in q.split(' ') {
        assert!(term.starts_with('"'));
        assert!(term.ends_with('"') || term.ends_with("\"*"));
    }
}

#[test]
fn fts_keeps_prefix_star_and_unicode_is_dropped() {
    assert_eq!(fts_query("über* spread").unwrap(), "\"ber\"* \"spread\"");
}

#[test]
fn like_prefix_escapes_wildcards() {
    assert_eq!(like_prefix("a_b%c\\d"), "a\\_b\\%c\\\\d%");
    assert_eq!(like_prefix(""), "%");
    assert_eq!(like_prefix("cloud.google.com/"), "cloud.google.com/%");
}

#[test]
fn version_key_reads_numeric_runs() {
    assert_eq!(version_key("v1.37.0"), vec![1, 37, 0]);
    assert_eq!(version_key("vv2-rc.3"), vec![2, 3]);
    assert_eq!(version_key("latest"), Vec::<u64>::new());
    // runs too large for 64 bits are skipped
    assert_eq!(version_key("1.99999999999999999999.2"), vec![1, 2]);
}

#[test]
fn sql_looking_input_becomes_plain_terms() {
    assert_eq!(fts_query("' OR 1=1 --").unwrap(), "\"OR\" \"11\" \"--\"");
}
