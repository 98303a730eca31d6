use json_sync::{detect_differences, merge_jsons};

#[test]
fn test_merge_simple() {
    let json1 = r#"{"key1": "value1"}"#;
    let json2 = r#"{"key2": "value2"}"#;
    let result = merge_jsons(json1, json2);
    let expected = r#"{"key1":"value1","key2":"value2"}"#;
    assert_eq!(result, expected);
}

#[test]
fn test_merge_overlapping_keys() {
    let json1 = r#"{"key": "value1"}"#;
    let json2 = r#"{"key": "value2"}"#;
    let result = merge_jsons(json1, json2);
    let expected = r#"{"key":"value2"}"#;
    assert_eq!(result, expected);
}

#[test]
fn test_merge_nested() {
    let json1 = r#"{"nested": {"key1": "value1"}}"#;
    let json2 = r#"{"nested": {"key2": "value2"}}"#;
    let result = merge_jsons(json1, json2);
    let expected = r#"{"nested":{"key1":"value1","key2":"value2"}}"#;
    assert_eq!(result, expected);
}

#[test]
fn test_invalid_json() {
    let json1 = r#"{"key":"value1"}"#;
    let json2 = r#"I am not a valid JSON!"#;
    let result = merge_jsons(json1, json2);
    assert_eq!(result, json1);
}

#[test]
fn merge_empty_sides() {
    assert_eq!(merge_jsons(r#"{"a":1,"b":"x"}"#, "{}"), r#"{"a":1,"b":"x"}"#);
    assert_eq!(merge_jsons("{}", r#"{"b":[1,2]}"#), r#"{"b":[1,2]}"#);
}

#[test]
fn merge_right_side_type_change() {
    // A key that holds an object on the left and a scalar on the right
    // takes the right side's scalar.
    assert_eq!(merge_jsons(r#"{"a":{"x":1}}"#, r#"{"a":5}"#), r#"{"a":5}"#);
    // A whole document that is not an object on the right replaces the left.
    assert_eq!(merge_jsons(r#"{"a":1}"#, "[1,2]"), "[1,2]");
}

#[test]
fn merge_overlapping_numbers() {
    assert_eq!(merge_jsons(r#"{"n":1}"#, r#"{"n":2}"#), r#"{"n":2}"#);
}

#[test]
fn merge_keeps_non_integer_numbers() {
    // Numbers outside the signed 64-bit range stay numbers through a
    // merge, and merging with an empty document keeps them unchanged.
    assert_eq!(merge_jsons(r#"{"pi":3.14}"#, "{}"), r#"{"pi":3.14}"#);
    assert_eq!(merge_jsons("{}", r#"{"big":18446744073709551615}"#), r#"{"big":18446744073709551615}"#);
}

#[test]
fn merge_float_text_is_stable() {
    // A printed float survives parse and print unchanged, so repeated
    // merges cannot drift a number's text.
    let x = r#"{"f":7.370437700706684e208}"#;
    let once = merge_jsons(x, "{}");
    let twice = merge_jsons(&once, "{}");
    assert_eq!(once, twice);
    assert_eq!(detect_differences(&once, &twice), vec![]);
}

#[test]
fn merge_deeply_nested_recursion() {
    let a = r#"{"top":{"mid":{"keep":"a","both":"old"}}}"#;
    let b = r#"{"top":{"mid":{"both":"new","add":"b"}}}"#;
    let expected = r#"{"top":{"mid":{"add":"b","both":"new","keep":"a"}}}"#;
    assert_eq!(merge_jsons(a, b), expected);
}

#[test]
fn merge_arrays_are_atomic() {
    // Arrays are not merged element-wise: the right one replaces the left.
    assert_eq!(merge_jsons(r#"{"arr":[1,2,3]}"#, r#"{"arr":[9]}"#), r#"{"arr":[9]}"#);
}
