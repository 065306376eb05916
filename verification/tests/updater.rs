use kube_docs_mcp::index_updater::{
    asset_url, check_download, check_manifest, check_uncompressed, next_retry_secs, plan_update,
    sidecar_sha, update_interval_secs, Manifest, ManifestIndex, UpdatePlan,
};
use kube_docs_mcp::AppError;

fn manifest(version: u32, file: &str) -> Manifest {
    Manifest {
        schema_version: version,
        build_date: "2026-09-12T10:00:00Z".into(),
        index: ManifestIndex {
            file: file.into(),
            sha256: "ABCD".into(),
            size: 123,
            uncompressed_size: 456,
            uncompressed_sha256: "EF01".into(),
        },
    }
}

#[test]
fn only_schema_version_one_is_understood() {
    assert!(check_manifest(&manifest(1, "x")).is_ok());
    match check_manifest(&manifest(2, "x")) {
        Err(AppError::Internal(m)) => assert_eq!(m, "unsupported index schema_version 2"),
        other => panic!("unexpected {other:?}"),
    }
}

#[test]
fn asset_urls_resolve_next_to_the_manifest() {
    assert_eq!(
        asset_url("https://github.com/o/r/releases/latest/download/release.json", "index.sqlite.zst"),
        "https://github.com/o/r/releases/latest/download/index.sqlite.zst"
    );
    assert_eq!(asset_url("release.json", "index.sqlite.zst"), "index.sqlite.zst");
    assert_eq!(asset_url("https://a/b/m.json", "http://c/d.zst"), "http://c/d.zst");
    assert_eq!(asset_url("https://a/b/m.json", "https://c/d.zst"), "https://c/d.zst");
}

#[test]
fn downloads_only_when_the_content_changed() {
    let m = manifest(1, "index.sqlite.zst");
    assert!(matches!(plan_update("https://h/r/release.json", &m, Some("ef01")), UpdatePlan::UpToDate));
    match plan_update("https://h/r/release.json", &m, Some("0000")) {
        UpdatePlan::Download { url, sha256, uncompressed_sha256 } => {
            assert_eq!(url, "https://h/r/index.sqlite.zst");
            assert_eq!(sha256, "abcd");
            assert_eq!(uncompressed_sha256, "ef01");
        }
        other => panic!("unexpected {other:?}"),
    }
    assert!(matches!(plan_update("m", &m, None), UpdatePlan::Download { .. }));
}

#[test]
fn hashes_must_match() {
    assert!(check_download("u", "abcd", "abcd").is_ok());
    match check_download("https://x/i.zst", "abcd", "beef") {
        Err(AppError::Internal(m)) => assert_eq!(m, "sha256 mismatch for https://x/i.zst: beef"),
        other => panic!("unexpected {other:?}"),
    }
    assert!(check_uncompressed("ef01", "ef01").is_ok());
    match check_uncompressed("ef01", "0000") {
        Err(AppError::Internal(m)) => assert_eq!(m, "uncompressed sha256 mismatch: 0000"),
        other => panic!("unexpected {other:?}"),
    }
}

#[test]
fn sidecar_is_trimmed_and_lowercased() {
    assert_eq!(sidecar_sha("  ABCdef\n"), "abcdef");
}

#[test]
fn retries_back_off_to_five_minutes() {
    let mut d = 5;
    let mut seen = vec![];
    for _ in 0..8 {
        d = next_retry_secs(d);
        seen.push(d);
    }
    assert_eq!(seen, vec![10, 20, 40, 80, 160, 300, 300, 300]);
}

#[test]
fn refresh_interval_is_at_least_a_minute() {
    assert_eq!(update_interval_secs(5), 60);
    assert_eq!(update_interval_secs(21600), 21600);
}
