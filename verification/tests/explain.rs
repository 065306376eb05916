use kube_docs_mcp::json::Json;
use kube_docs_mcp::schema::explain::{
    deref, deref_bounded, first_sentence, render, render_bounded, subtree, subtree_bounded, type_label,
    type_label_bounded, walk, walk_bounded, wrap,
};
use kube_docs_mcp::schema::store::KindRef;
use kube_docs_mcp::AppError;
use serde_json::Value;

fn to_json(v: &Value) -> Json {
    match v {
        Value::Null => Json::Null,
        Value::Bool(b) => Json::Bool(*b),
        Value::Number(n) => Json::Number(n.to_string()),
        Value::String(s) => Json::Str(s.clone()),
        Value::Array(a) => Json::Array(a.iter().map(to_json).collect()),
        Value::Object(m) => Json::Object(m.iter().map(|(k, v)| (k.clone(), to_json(v))).collect()),
    }
}

fn j(text: &str) -> Json {
    to_json(&serde_json::from_str::<Value>(text).unwrap())
}

fn pod() -> Json {
    j(r##"{
        "$ref": "#/definitions/Pod",
        "definitions": {
            "Pod": {"type":"object","description":"Pod is a collection of containers.",
                "properties": {"spec": {"$ref":"#/definitions/PodSpec"}, "metadata": {"type":"object"}},
                "required":["spec"]},
            "PodSpec": {"type":"object","description":"PodSpec is a description of a pod.",
                "properties": {"containers": {"type":"array","items":{"$ref":"#/definitions/Container"},"description":"List of containers."},
                               "nodeSelector":{"type":"object","additionalProperties":{"type":"string"}},
                               "priority":{"type":["integer","null"]}},
                "required":["containers"]},
            "Container": {"type":"object","properties":{"name":{"type":"string","description":"Name of the container. Must be DNS_LABEL."},
                "ports":{"type":"array","items":{"type":"object","properties":{"containerPort":{"type":"integer"},"name":{"type":"string"}},"required":["containerPort"]}},
                "targetPort":{"x-kubernetes-int-or-string":true,"oneOf":[{"type":"integer"},{"type":"string"}]}},
                "required":["name"]}
        }
    }"##)
}

fn pod_ref() -> KindRef {
    KindRef {
        kind_id: 1,
        project: "k8s".into(),
        version: "1.37.0".into(),
        pinned: true,
        source: "own".into(),
        api_group: "".into(),
        api_version: "v1".into(),
        kind: "Pod".into(),
        scope: Some("Namespaced".into()),
        description: None,
    }
}

#[test]
fn walks_paths_and_types() {
    let r = pod();
    let n = walk(&r, "spec.containers").ok();
    assert!(n.as_ref().and_then(|n| n.get("properties")).is_some());
    assert_eq!(type_label(&r, &j(r##"{"$ref":"#/definitions/PodSpec"}"##)), "Object");
    let spec = walk(&r, "spec").ok().unwrap_or(Json::Null);
    assert_eq!(
        type_label(&r, spec.get("properties").and_then(|p| p.get("containers")).unwrap_or(&Json::Null)),
        "[]Object"
    );
    assert_eq!(
        type_label(&r, spec.get("properties").and_then(|p| p.get("nodeSelector")).unwrap_or(&Json::Null)),
        "map[string]string"
    );
    assert_eq!(
        type_label(&r, spec.get("properties").and_then(|p| p.get("priority")).unwrap_or(&Json::Null)),
        "integer"
    );
    let c = walk(&r, "spec.containers[].targetPort").ok().unwrap_or(Json::Null);
    assert_eq!(type_label(&r, &c), "int-or-string");
    assert!(walk(&r, "spec.nope").is_err());
}

#[test]
fn renders_and_subtree() {
    let r = pod();
    let kref = pod_ref();
    let text = render(&kref, &r, "spec.containers[].ports", 1).unwrap_or_default();
    assert!(text.contains("containerPort\t<integer> -required-"), "{text}");
    assert!(text.contains("VERSION:    v1"));
    let sub = subtree(&r, "spec").unwrap_or(Json::Null);
    assert!(sub.get("definitions").and_then(|d| d.get("Container")).is_some());
    assert!(sub.get("definitions").and_then(|d| d.get("Pod")).is_none());
}

#[test]
fn walk_reports_missing_fields_with_alternatives() {
    let r = pod();
    match walk(&r, "spec.nope") {
        Err(AppError::NotFound(m)) => {
            assert!(m.contains("nope"), "{m}");
            assert!(m.contains("containers"), "{m}");
        }
        other => panic!("unexpected {other:?}"),
    }
}

#[test]
fn deref_follows_references() {
    let r = pod();
    let d = deref(&r, &j(r##"{"$ref":"#/definitions/Container"}"##));
    assert!(d.get("properties").and_then(|p| p.get("ports")).is_some());
    // a node without $ref is returned as it is
    let plain = j(r#"{"type":"string"}"#);
    assert_eq!(deref(&r, &plain).get("type").and_then(|t| t.as_str()).map(|s| s.as_str()), Some("string"));
}

#[test]
fn deref_merges_all_of() {
    let root = j(r##"{"definitions":{"A":{"properties":{"a":{"type":"string"}},"required":["a"]}}}"##);
    let node = j(r##"{"allOf":[{"$ref":"#/definitions/A"},{"properties":{"b":{"type":"integer"}}}],"description":"d"}"##);
    let d = deref(&root, &node);
    assert!(d.get("allOf").is_none());
    let props = d.get("properties").unwrap();
    assert!(props.get("a").is_some());
    assert!(props.get("b").is_some());
    assert!(d.get("description").is_some());
}

#[test]
fn renders_header_and_fields() {
    let r = pod();
    let text = render(&pod_ref(), &r, "", 1).unwrap();
    assert!(text.starts_with("KIND:       Pod\n"), "{text}");
    assert!(text.contains("spec\t<Object> -required-"), "{text}");
    assert!(render(&pod_ref(), &r, "spec.bogus", 1).is_err());
}

#[test]
fn subtree_root_carries_schema_uri() {
    let r = pod();
    let sub = subtree(&r, "spec.containers").unwrap();
    assert_eq!(
        sub.get("$schema").and_then(|s| s.as_str()).map(|s| s.as_str()),
        Some("http://json-schema.org/draft-04/schema#")
    );
}

fn fixture_pod() -> Json {
    j(r##"{
        "$schema": "http://json-schema.org/draft-04/schema#",
        "$ref": "#/definitions/io.k8s.api.core.v1.Pod",
        "definitions": {
            "io.k8s.api.core.v1.Pod": {
                "type": "object", "description": "Pod is a collection of containers that can run on a host.",
                "properties": {
                    "apiVersion": {"type": "string"}, "kind": {"type": "string"},
                    "metadata": {"$ref": "#/definitions/ObjectMeta"},
                    "spec": {"$ref": "#/definitions/io.k8s.api.core.v1.PodSpec"}
                }
            },
            "ObjectMeta": {"type": "object", "properties": {"name": {"type": "string"}, "labels": {"type": "object", "additionalProperties": {"type": "string"}}}},
            "io.k8s.api.core.v1.PodSpec": {
                "type": "object", "description": "PodSpec is a description of a pod.",
                "required": ["containers"],
                "properties": {
                    "containers": {"type": "array", "description": "List of containers belonging to the pod. Cannot be updated.",
                        "items": {"$ref": "#/definitions/io.k8s.api.core.v1.Container"}},
                    "restartPolicy": {"type": "string", "enum": ["Always", "OnFailure", "Never"]},
                    "topologySpreadConstraints": {"type": "array", "items": {"type": "object", "properties": {"maxSkew": {"type": "integer"}}}}
                }
            },
            "io.k8s.api.core.v1.Container": {
                "type": "object", "required": ["name"],
                "properties": {
                    "name": {"type": "string", "description": "Name of the container specified as a DNS_LABEL. Each container in a pod must have a unique name."},
                    "image": {"type": "string"},
                    "ports": {"type": "array", "items": {"type": "object", "required": ["containerPort"],
                        "properties": {"containerPort": {"type": "integer"}, "name": {"type": "string"}}}}
                }
            }
        }
    }"##)
}

#[test]
fn explains_the_indexed_pod_schema() {
    let s = fixture_pod();
    let r = pod_ref();
    let text = render(&r, &s, "spec.containers[].ports", 1).unwrap();
    assert!(text.contains("KIND:       Pod"));
    assert!(text.contains("containerPort\t<integer> -required-"), "{text}");
    let top = render(&r, &s, "", 2).unwrap();
    assert!(top.contains("spec\t<Object>"));
    assert!(top.contains("containers\t<[]Object> -required-"), "{top}");
    let sub = subtree(&s, "spec.containers").unwrap();
    let ports_type = sub
        .get("properties")
        .and_then(|p| p.get("ports"))
        .and_then(|p| p.get("type"))
        .and_then(|t| t.as_str())
        .map(|t| t.as_str());
    assert_eq!(ports_type, Some("array"));
    assert!(sub
        .get("definitions")
        .map_or(true, |d| d.get("io.k8s.api.core.v1.Pod").is_none()));
}

#[test]
fn explains_enums_and_scope() {
    let s = fixture_pod();
    let text = render(&pod_ref(), &s, "spec.restartPolicy", 1).unwrap();
    assert!(text.contains("SCOPE:      Namespaced"), "{text}");
    assert!(text.contains("FIELD:      spec.restartPolicy\t<string>"), "{text}");
    assert!(text.contains("ENUM: \"Always\", \"OnFailure\", \"Never\""), "{text}");
}

#[test]
fn first_sentences_are_short() {
    assert_eq!(first_sentence("  Name of it.\nMore text. "), "Name of it.");
    assert_eq!(first_sentence("line one\nline two"), "line one line two");
    let long = "x".repeat(200);
    let s = first_sentence(&long);
    assert_eq!(s.len(), 160);
    assert!(s.ends_with("..."));
    assert_eq!(first_sentence("Ends with dot."), "Ends with dot.");
}

#[test]
fn wraps_paragraphs_greedily() {
    assert_eq!(wrap("aa bb cc", "  ", 5), "  aa bb\n  cc\n");
    assert_eq!(wrap("one\n\ntwo", "", 80), "one\ntwo\n");
    assert_eq!(wrap("averyveryverylongword x", "", 4), "averyveryverylongword\nx\n");
    assert_eq!(wrap("", "    ", 88), "");
}

#[test]
fn walk_ignores_brackets_and_empty_segments() {
    let r = pod();
    let a = to_text_of(walk(&r, "spec.containers[].ports"));
    assert_eq!(a, to_text_of(walk(&r, "spec.containers.ports")));
    assert_eq!(a, to_text_of(walk(&r, "spec..containers.ports")));
    assert_eq!(to_text_of(walk(&r, "spec.containers[]")), to_text_of(walk(&r, "spec.containers")));
}

fn to_text_of(r: Result<Json, AppError>) -> String {
    match r {
        Ok(n) => kube_docs_mcp::json::to_text(&n),
        Err(e) => format!("error {}", e.message()),
    }
}

#[test]
fn bounded_runs_agree_when_fuel_suffices() {
    let r = pod();
    let k = pod_ref();
    for (path, depth) in [("", 1u8), ("spec", 2), ("spec.containers[].ports", 3), ("spec.nope", 1)] {
        let full = render(&k, &r, path, depth);
        let bounded = render_bounded(&k, &r, path, depth, 64).expect("enough fuel");
        assert_eq!(format!("{full:?}"), format!("{bounded:?}"));
        let w = to_text_of(walk(&r, path));
        assert_eq!(w, to_text_of(walk_bounded(&r, path, 64).expect("enough fuel")));
        let sub = to_text_of(subtree(&r, path));
        assert_eq!(sub, to_text_of(subtree_bounded(&r, path, 64).expect("enough fuel")));
    }
    let spec = j(r##"{"$ref":"#/definitions/PodSpec"}"##);
    assert_eq!(
        kube_docs_mcp::json::to_text(&deref(&r, &spec)),
        kube_docs_mcp::json::to_text(&deref_bounded(&r, &spec, 64).unwrap())
    );
    assert_eq!(type_label(&r, &spec), type_label_bounded(&r, &spec, 64).unwrap());
    assert!(deref_bounded(&r, &spec, 0).is_none());
    assert!(render_bounded(&k, &r, "", 1, 0).is_none());
}

#[test]
fn bounded_runs_stop_on_cyclic_schemas() {
    let r = j(r##"{"$ref":"#/definitions/A","definitions":{"A":{"allOf":[{"$ref":"#/definitions/A"}]}}}"##);
    assert!(deref_bounded(&r, &r, 50).is_none());
    assert!(walk_bounded(&r, "", 50).is_none());
    assert!(render_bounded(&pod_ref(), &r, "", 1, 50).is_none());
    assert!(subtree_bounded(&r, "", 50).is_none());
}
