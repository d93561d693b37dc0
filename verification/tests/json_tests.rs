use rev_proxy::json::{sort_json, JsonValue};
use rev_proxy::encode::serialize_json;

fn num(text: &str) -> JsonValue {
    JsonValue::Number(text.as_bytes().to_vec())
}

fn txt(text: &str) -> JsonValue {
    JsonValue::Text(text.as_bytes().to_vec())
}

fn obj(members: Vec<(&str, JsonValue)>) -> JsonValue {
    JsonValue::Object(members.into_iter().map(|(k, v)| (k.as_bytes().to_vec(), v)).collect())
}

#[test]
fn test_sort_json_simple_object() {
    let input = obj(vec![("c", num("3")), ("a", num("1")), ("b", num("2"))]);
    let expected = obj(vec![("a", num("1")), ("b", num("2")), ("c", num("3"))]);

    assert_eq!(sort_json(&input), expected);
}

#[test]
fn test_sort_json_nested_object_and_arrays() {
    let input = obj(vec![
        (
            "z",
            obj(vec![
                ("y", num("2")),
                (
                    "x",
                    JsonValue::Array(vec![
                        obj(vec![("b", num("2")), ("a", num("1"))]),
                        obj(vec![("d", num("4")), ("c", num("3"))]),
                    ]),
                ),
            ]),
        ),
        ("a", num("1")),
    ]);
    let expected = obj(vec![
        ("a", num("1")),
        (
            "z",
            obj(vec![
                (
                    "x",
                    JsonValue::Array(vec![
                        obj(vec![("a", num("1")), ("b", num("2"))]),
                        obj(vec![("c", num("3")), ("d", num("4"))]),
                    ]),
                ),
                ("y", num("2")),
            ]),
        ),
    ]);

    assert_eq!(sort_json(&input), expected);
}

#[test]
fn test_sort_json_primitives() {
    let input = num("42");
    let expected = num("42");

    // Primitives should remain the same
    assert_eq!(sort_json(&input), expected);
}

#[test]
fn sort_json_is_idempotent_on_a_nested_value() {
    let input = obj(vec![
        ("m", JsonValue::Array(vec![obj(vec![("q", num("7")), ("p", JsonValue::Null)])])),
        ("a", JsonValue::Bool(true)),
        ("k", txt("v")),
    ]);
    let once = sort_json(&input);
    let twice = sort_json(&once);
    assert_eq!(twice, once);
}

#[test]
fn serialize_matches_serde_json_output() {
    let text = "{\"z\":{\"y\":2,\"x\":[{\"b\":2,\"a\":1},{\"d\":4,\"c\":3}]},\"a\":\"t\\\"x\\\\y\\nz\",\"n\":null,\"b\":true,\"e\":[]}";
    let parsed: serde_json::Value = serde_json::from_str(text).unwrap();
    // serde_json keeps its map sorted by key, so its output is already
    // canonical
    let expected = serde_json::to_string(&parsed).unwrap();

    let mine = obj(vec![
        (
            "z",
            obj(vec![
                ("y", num("2")),
                (
                    "x",
                    JsonValue::Array(vec![
                        obj(vec![("b", num("2")), ("a", num("1"))]),
                        obj(vec![("d", num("4")), ("c", num("3"))]),
                    ]),
                ),
            ]),
        ),
        ("a", txt("t\"x\\y\nz")),
        ("n", JsonValue::Null),
        ("b", JsonValue::Bool(true)),
        ("e", JsonValue::Array(vec![])),
    ]);
    let bytes = serialize_json(&sort_json(&mine));
    assert_eq!(bytes, expected.into_bytes());
}

#[test]
fn serialize_escapes_control_bytes_like_serde_json() {
    let parsed: serde_json::Value = serde_json::from_str("\"a\\u0001b\\u001fc\\td\"").unwrap();
    let expected = serde_json::to_string(&parsed).unwrap();
    let mine = txt("a\u{1}b\u{1f}c\td");
    assert_eq!(serialize_json(&mine), expected.into_bytes());
}

#[test]
fn sort_json_keeps_equal_keys_in_order() {
    // an object built by hand may hold one key twice; sorting is stable, so
    // both members stay, in their original order
    let input = JsonValue::Object(vec![
        (b"b".to_vec(), num("9")),
        (b"a".to_vec(), num("1")),
        (b"a".to_vec(), num("2")),
    ]);
    let expected = JsonValue::Object(vec![
        (b"a".to_vec(), num("1")),
        (b"a".to_vec(), num("2")),
        (b"b".to_vec(), num("9")),
    ]);
    assert_eq!(sort_json(&input), expected);
}

#[test]
fn serialize_compact_object() {
    let v = obj(vec![("b", num("2")), ("a", num("1"))]);
    let bytes = serialize_json(&sort_json(&v));
    assert_eq!(bytes, b"{\"a\":1,\"b\":2}".to_vec());
}
