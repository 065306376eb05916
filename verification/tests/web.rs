use kube_docs_mcp::web::{cache_control, file_headers, static_path};

#[test]
fn request_paths_map_to_files() {
    assert_eq!(static_path("/").as_deref(), Some("index.html"));
    assert_eq!(static_path("").as_deref(), Some("index.html"));
    assert_eq!(static_path("//docs/").as_deref(), Some("docs/index.html"));
    assert_eq!(static_path("/app.js").as_deref(), Some("app.js"));
    assert_eq!(static_path("/../etc/passwd"), None);
    assert_eq!(static_path("/a..b"), None);
}

#[test]
fn cache_lifetimes() {
    assert_eq!(cache_control("index.html"), "public, max-age=300");
    assert_eq!(cache_control("app.js"), "public, max-age=86400");
    assert_eq!(cache_control("html"), "public, max-age=86400");
}

#[test]
fn content_types_come_from_the_extension() {
    let (ct, cache) = file_headers("docs/index.html");
    assert_eq!(ct, "text/html");
    assert_eq!(cache, "public, max-age=300");
    assert_eq!(file_headers("style.css").0, "text/css");
    assert_eq!(file_headers("blob").0, "application/octet-stream");
}
