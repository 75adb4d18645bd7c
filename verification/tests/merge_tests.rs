use rigra::json::{json_eq, JsonValue};
use rigra::merge::{merge_documents, render_canonical, should_write, MergeConfig};
use rigra::fingerprint::fingerprint;

fn obj(entries: Vec<(&str, JsonValue)>) -> JsonValue {
    JsonValue::Obj(entries.into_iter().map(|(k, v)| (k.to_string(), v)).collect())
}

fn cfg(
    ov: Vec<&str>,
    keep: Vec<&str>,
    nosync: Vec<&str>,
    arrs: Vec<(&str, &str)>,
) -> MergeConfig {
    MergeConfig {
        override_paths: ov.into_iter().map(|s| s.to_string()).collect(),
        keep_paths: keep.into_iter().map(|s| s.to_string()).collect(),
        nosync_paths: nosync.into_iter().map(|s| s.to_string()).collect(),
        array_strategy: arrs.into_iter().map(|(a, b)| (a.to_string(), b.to_string())).collect(),
    }
}

#[test]
fn merge_keep_path_lets_destination_win() {
    let template = obj(vec![("x", JsonValue::Int(1)), ("y", JsonValue::Int(2))]);
    let dest = obj(vec![("x", JsonValue::Int(9)), ("y", JsonValue::Int(2))]);
    let merged = merge_documents(&template, &dest, &cfg(vec![], vec!["x"], vec![], vec![]));
    let expected = obj(vec![("x", JsonValue::Int(9)), ("y", JsonValue::Int(2))]);
    assert!(json_eq(&merged, &expected));
}

#[test]
fn merge_keep_path_deletes_when_destination_lacks_it() {
    let template = obj(vec![("x", JsonValue::Int(1)), ("y", JsonValue::Int(2))]);
    let dest = obj(vec![("y", JsonValue::Int(5))]);
    let merged = merge_documents(&template, &dest, &cfg(vec![], vec!["x"], vec![], vec![]));
    let expected = obj(vec![("y", JsonValue::Int(2))]);
    assert!(json_eq(&merged, &expected));
}

#[test]
fn merge_union_appends_new_template_elements() {
    let template = obj(vec![(
        "a",
        JsonValue::Arr(vec![JsonValue::Int(1), JsonValue::Int(2), JsonValue::Int(3)]),
    )]);
    let dest = obj(vec![(
        "a",
        JsonValue::Arr(vec![JsonValue::Int(2), JsonValue::Int(3)]),
    )]);
    let merged = merge_documents(&template, &dest, &cfg(vec![], vec![], vec![], vec![("a", "union")]));
    let expected = obj(vec![(
        "a",
        JsonValue::Arr(vec![JsonValue::Int(2), JsonValue::Int(3), JsonValue::Int(1)]),
    )]);
    assert!(json_eq(&merged, &expected));
}

#[test]
fn merge_other_strategy_takes_template_array() {
    let template = obj(vec![(
        "a",
        JsonValue::Arr(vec![JsonValue::Int(1), JsonValue::Int(2)]),
    )]);
    let dest = obj(vec![(
        "a",
        JsonValue::Arr(vec![JsonValue::Int(9)]),
    )]);
    let merged = merge_documents(
        &template,
        &dest,
        &cfg(vec![], vec![], vec![], vec![("a", "replace")]),
    );
    let expected = obj(vec![(
        "a",
        JsonValue::Arr(vec![JsonValue::Int(1), JsonValue::Int(2)]),
    )]);
    assert!(json_eq(&merged, &expected));
}

#[test]
fn merge_nosync_behaves_like_keep() {
    let template = obj(vec![("x", JsonValue::Int(1))]);
    let dest = obj(vec![("x", JsonValue::Int(7))]);
    let merged = merge_documents(&template, &dest, &cfg(vec![], vec![], vec!["x"], vec![]));
    assert!(json_eq(&merged, &obj(vec![("x", JsonValue::Int(7))])));
}

#[test]
fn second_merge_with_recorded_fingerprint_skips_write() {
    let template = obj(vec![("x", JsonValue::Int(1)), ("y", JsonValue::Int(2))]);
    let dest = obj(vec![("x", JsonValue::Int(9))]);
    let c = cfg(vec![], vec!["x"], vec![], vec![]);
    let first = merge_documents(&template, &dest, &c);
    let out1 = render_canonical(&first);
    // A fresh destination owes a write.
    assert!(should_write(out1.as_str(), None));
    let recorded = fingerprint(out1.as_str());
    // The same merge again produces byte-identical canonical text.
    let second = merge_documents(&template, &dest, &c);
    let out2 = render_canonical(&second);
    assert_eq!(out1, out2);
    assert!(!should_write(out2.as_str(), Some(&recorded)));
}

#[test]
fn canonical_text_is_the_pretty_form() {
    let v = obj(vec![("b", JsonValue::Int(1)), ("a", JsonValue::Null)]);
    assert_eq!(render_canonical(&v), "{\n  \"b\": 1,\n  \"a\": null\n}\n");
    assert_eq!(render_canonical(&JsonValue::Int(5)), "5\n");
}
