use rigra::json::{json_eq, JsonValue};
use rigra::path::{get_json_path, set_json_path};

fn txt(s: &str) -> JsonValue {
    JsonValue::Text(s.to_string())
}

fn obj(entries: Vec<(&str, JsonValue)>) -> JsonValue {
    JsonValue::Obj(entries.into_iter().map(|(k, v)| (k.to_string(), v)).collect())
}

#[test]
fn test_get_json_path_basic_and_nested() {
    let data = obj(vec![
        ("name", txt("rigra")),
        ("nested", obj(vec![("a", obj(vec![("b", JsonValue::Int(42))]))])),
    ]);
    assert!(json_eq(get_json_path(&data, "name").unwrap(), &txt("rigra")));
    assert!(json_eq(get_json_path(&data, "$.nested.a.b").unwrap(), &JsonValue::Int(42)));
    assert!(get_json_path(&data, "nested.missing").is_none());
    assert!(get_json_path(&data, "$.nested.a.b.c").is_none());
}

#[test]
fn empty_path_names_whole_document() {
    let data = obj(vec![("a", JsonValue::Int(1))]);
    assert!(json_eq(get_json_path(&data, "").unwrap(), &data));
    assert!(json_eq(get_json_path(&data, "$").unwrap(), &data));
}

#[test]
fn set_creates_missing_intermediates() {
    let data = obj(vec![("a", JsonValue::Int(1))]);
    let out = set_json_path(&data, "b.c", Some(&JsonValue::Int(7)));
    let expected = obj(vec![
        ("a", JsonValue::Int(1)),
        ("b", obj(vec![("c", JsonValue::Int(7))])),
    ]);
    assert!(json_eq(&out, &expected));
}

#[test]
fn set_through_non_object_leaves_tree_unchanged() {
    let data = obj(vec![("a", JsonValue::Int(1))]);
    let out = set_json_path(&data, "a.b.c", Some(&JsonValue::Int(7)));
    assert!(json_eq(&out, &data));
}

#[test]
fn delete_removes_key_and_misses_quietly() {
    let data = obj(vec![("a", JsonValue::Int(1)), ("b", JsonValue::Int(2))]);
    let out = set_json_path(&data, "b", None);
    assert!(json_eq(&out, &obj(vec![("a", JsonValue::Int(1))])));
    let out2 = set_json_path(&data, "missing.key", None);
    assert!(json_eq(&out2, &data));
}

#[test]
fn set_replaces_existing_value_in_place() {
    let data = obj(vec![("x", JsonValue::Int(1)), ("y", JsonValue::Int(2))]);
    let out = set_json_path(&data, "x", Some(&JsonValue::Int(9)));
    let expected = obj(vec![("x", JsonValue::Int(9)), ("y", JsonValue::Int(2))]);
    assert!(json_eq(&out, &expected));
}
