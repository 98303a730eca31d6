use json_sync::{get_path, obj_get, parse_document, string_values, to_json_text, Value};

#[test]
fn get_path_sibling_file() {
    assert_eq!(get_path("ws/package.json", "package.base.json"), "ws/package.base.json");
    assert_eq!(get_path("a/b/c.json", "d.json"), "a/b/d.json");
}

#[test]
fn get_path_bare_file() {
    assert_eq!(get_path("package.json", "package.base.json"), "package.base.json");
}

#[test]
fn get_path_absolute_relative_wins() {
    assert_eq!(get_path("a/b.json", "/etc/x.json"), "/etc/x.json");
}

#[test]
fn get_path_trailing_and_repeated_separators() {
    // The parent ignores trailing separators and the whole run of
    // separators before the last component.
    assert_eq!(get_path("a/b/", "x"), "a/x");
    assert_eq!(get_path("a//b", "x"), "a/x");
    assert_eq!(get_path("a/b//", "x"), "a/x");
    assert_eq!(get_path("/a", "x"), "/x");
}

#[test]
fn parse_and_render_numbers() {
    let v = parse_document(r#"{"version": 5}"#).unwrap();
    assert_eq!(v, Value::Object(vec![("version".to_string(), Value::Number(5))]));
    assert_eq!(to_json_text(&v), r#"{"version":5}"#);
}

#[test]
fn parse_rejects_invalid_text() {
    assert!(parse_document("I am not a valid JSON!").is_none());
}

#[test]
fn workspace_list_values() {
    let doc = parse_document(
        r#"{
            "workspaces": [
                "workspace1",
                "workspace2",
                "workspace3"
            ]
        }"#,
    )
    .unwrap();
    let arr = match &doc {
        Value::Object(entries) => obj_get(entries, &"workspaces".to_string()).unwrap(),
        _ => panic!("expected an object"),
    };
    assert_eq!(string_values(arr), vec!["workspace1", "workspace2", "workspace3"]);
}

#[test]
fn workspace_list_absent() {
    let doc = parse_document(r#"{ "version": 5 }"#).unwrap();
    let looked = match &doc {
        Value::Object(entries) => obj_get(entries, &"workspaces".to_string()),
        _ => None,
    };
    assert!(looked.is_none());
}
