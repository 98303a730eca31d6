use json_sync::{
    apply_differences, detect_differences, parse_document, to_json_text, Difference, Value,
};

#[test]
fn main_test() {
    let mut json2: Value = parse_document(
        r#"{
            "key1": "original_value1",
            "key2": "original_value2",
            "nested": {
                "key_common": "original_common_value",
                "unique_to_2": "value_unique_2"
            }
        }"#,
    )
    .unwrap();
    let mut json3 = json2.deep_copy();

    let differences = vec![
        Difference::OnlyInSecond("new_key".to_string(), Value::Text("new_value".to_string())),
        Difference::DifferentValues(
            "key1".to_string(),
            Value::Null,
            Value::Text("modified_value1".to_string()),
        ),
        Difference::NestedDifference(
            "nested".to_string(),
            vec![Difference::DifferentValues(
                "key_common".to_string(),
                Value::Null,
                Value::Text("modified_common_value".to_string()),
            )],
        ),
        Difference::NestedDifference(
            "nested2".to_string(),
            vec![Difference::DifferentValues(
                "key_common2".to_string(),
                Value::Null,
                Value::Text("modified_common_value".to_string()),
            )],
        ),
    ];
    let expected: Value = parse_document(
        r#"{
            "key1": "modified_value1",
            "key2": "original_value2",
            "new_key": "new_value",
            "nested": {
                "key_common": "modified_common_value",
                "unique_to_2": "value_unique_2"
            },
            "nested2": {
                "key_common2": "modified_common_value"
            }
        }"#,
    )
    .unwrap();
    apply_differences(&mut json3, &differences);
    let result = to_json_text(&json3);
    assert_eq!(result, to_json_text(&expected));
    let differences1 = detect_differences(&result, &to_json_text(&expected));
    assert_eq!(differences1, vec![]);
    // Apply the detected differences to the original document to reach
    // the expected one.
    let differences2 = detect_differences(&to_json_text(&json2), &to_json_text(&expected));
    apply_differences(&mut json2, &differences2);
    let result2 = to_json_text(&json2);
    assert_eq!(result2, to_json_text(&expected));
}

#[test]
fn detect_nested_scenario() {
    let a = r#"{"key1":"v1","nested":{"c":"old","only1":"x"}}"#;
    let b = r#"{"key1":"v1","new_key":"y","nested":{"c":"new"}}"#;
    let diffs = detect_differences(a, b);
    assert!(diffs.contains(&Difference::OnlyInSecond(
        "new_key".to_string(),
        Value::Text("y".to_string())
    )));
    let mut saw_nested = false;
    for d in &diffs {
        if let Difference::NestedDifference(k, children) = d {
            assert_eq!(k, "nested");
            assert_eq!(children.len(), 2);
            assert!(children.contains(&Difference::OnlyInFirst(
                "only1".to_string(),
                Value::Text("x".to_string())
            )));
            assert!(children.contains(&Difference::DifferentValues(
                "c".to_string(),
                Value::Text("old".to_string()),
                Value::Text("new".to_string())
            )));
            saw_nested = true;
        }
    }
    assert!(saw_nested);
    // Replaying the change-set on the first document reaches the second.
    let mut target = parse_document(a).unwrap();
    apply_differences(&mut target, &diffs);
    assert_eq!(to_json_text(&target), to_json_text(&parse_document(b).unwrap()));
}

#[test]
fn detect_whole_document_scalar() {
    let diffs = detect_differences(r#"{"a":1}"#, "5");
    assert_eq!(
        diffs,
        vec![Difference::DifferentValues(
            String::new(),
            Value::Object(vec![("a".to_string(), Value::Number(1))]),
            Value::Number(5),
        )]
    );
}

#[test]
fn detect_self_is_empty() {
    let a = r#"{"x":{"y":[1,2]},"z":null,"b":true}"#;
    assert_eq!(detect_differences(a, a), vec![]);
}

#[test]
fn detect_equal_non_objects_yield_nothing() {
    // Equal documents of any shape never produce a difference; the
    // whole-document branch fires only on unequal documents.
    assert_eq!(detect_differences("5", "5"), vec![]);
    assert_eq!(detect_differences("[1,2]", "[1,2]"), vec![]);
    assert_eq!(detect_differences("\"a\"", "\"a\""), vec![]);
    let diffs = detect_differences("5", "6");
    assert_eq!(
        diffs,
        vec![Difference::DifferentValues(String::new(), Value::Number(5), Value::Number(6))]
    );
}

#[test]
fn detect_number_and_its_text_differ() {
    // The number 1.5 and the string "1.5" are different values.
    let diffs = detect_differences(r#"{"x":1.5}"#, r#"{"x":"1.5"}"#);
    assert_eq!(
        diffs,
        vec![Difference::DifferentValues(
            "x".to_string(),
            Value::BigNumber("1.5".to_string()),
            Value::Text("1.5".to_string()),
        )]
    );
    assert_eq!(detect_differences(r#"{"x":1.5}"#, r#"{"x":1.5}"#), vec![]);
}

#[test]
fn detect_invalid_json_reads_as_null() {
    let diffs = detect_differences("not json at all", r#"{"a":1}"#);
    assert_eq!(
        diffs,
        vec![Difference::DifferentValues(
            String::new(),
            Value::Null,
            Value::Object(vec![("a".to_string(), Value::Number(1))]),
        )]
    );
}

#[test]
fn detect_arrays_stay_atomic() {
    let diffs = detect_differences(r#"{"arr":[1,2]}"#, r#"{"arr":[1,3]}"#);
    assert_eq!(
        diffs,
        vec![Difference::DifferentValues(
            "arr".to_string(),
            Value::Array(vec![Value::Number(1), Value::Number(2)]),
            Value::Array(vec![Value::Number(1), Value::Number(3)]),
        )]
    );
}

#[test]
fn detect_apply_round_trip() {
    let a = r#"{"keep":"k","drop":"d","change":1,"nest":{"a":1,"b":2}}"#;
    let b = r#"{"keep":"k","add":"n","change":2,"nest":{"a":1,"b":3,"c":4}}"#;
    let diffs = detect_differences(a, b);
    let mut target = parse_document(a).unwrap();
    apply_differences(&mut target, &diffs);
    assert_eq!(to_json_text(&target), to_json_text(&parse_document(b).unwrap()));
}

#[test]
fn apply_skips_non_object_target() {
    let mut target = Value::Number(7);
    let diffs = vec![Difference::OnlyInSecond("a".to_string(), Value::Bool(true))];
    apply_differences(&mut target, &diffs);
    assert_eq!(target, Value::Number(7));
}

#[test]
fn apply_creates_missing_nested_object() {
    let mut target = Value::Object(vec![]);
    let diffs = vec![Difference::NestedDifference(
        "inner".to_string(),
        vec![Difference::OnlyInSecond("k".to_string(), Value::Text("v".to_string()))],
    )];
    apply_differences(&mut target, &diffs);
    assert_eq!(to_json_text(&target), r#"{"inner":{"k":"v"}}"#);
}

#[test]
fn apply_removes_only_in_first() {
    let mut target = parse_document(r#"{"a":1,"b":2}"#).unwrap();
    let diffs = vec![
        Difference::OnlyInFirst("a".to_string(), Value::Number(1)),
        Difference::OnlyInFirst("missing".to_string(), Value::Null),
    ];
    apply_differences(&mut target, &diffs);
    assert_eq!(to_json_text(&target), r#"{"b":2}"#);
}
