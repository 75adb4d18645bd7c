use rigra::formatter::{format_document, order_issue, LbOverrides, LinebreakPolicy, OrderPolicy};
use rigra::json::JsonValue;

fn txt(s: &str) -> JsonValue {
    JsonValue::Text(s.to_string())
}

fn obj(entries: Vec<(&str, JsonValue)>) -> JsonValue {
    JsonValue::Obj(entries.into_iter().map(|(k, v)| (k.to_string(), v)).collect())
}

fn groups(gs: Vec<Vec<&str>>) -> Vec<Vec<String>> {
    gs.into_iter().map(|g| g.into_iter().map(|s| s.to_string()).collect()).collect()
}

fn pairs(ps: Vec<(&str, &str)>) -> Vec<(String, String)> {
    ps.into_iter().map(|(a, b)| (a.to_string(), b.to_string())).collect()
}

fn no_order() -> OrderPolicy {
    OrderPolicy { top: Vec::new(), sub: Vec::new() }
}

fn no_lb() -> LinebreakPolicy {
    LinebreakPolicy { between_groups: false, before_fields: Vec::new(), in_fields: Vec::new() }
}

fn no_over() -> LbOverrides {
    LbOverrides { between_groups: None, before_fields: Vec::new(), in_fields: Vec::new() }
}

#[test]
fn format_orders_keys_by_groups_stably() {
    let original = "{\n  \"license\": \"MIT\",\n  \"z\": 1,\n  \"name\": \"x\",\n  \"a\": 2,\n  \"version\": \"1.0.0\"\n}\n";
    let doc = obj(vec![
        ("license", txt("MIT")),
        ("z", JsonValue::Int(1)),
        ("name", txt("x")),
        ("a", JsonValue::Int(2)),
        ("version", txt("1.0.0")),
    ]);
    let order = OrderPolicy {
        top: groups(vec![vec!["name"], vec!["version"], vec!["license"]]),
        sub: Vec::new(),
    };
    let out = format_document(original, &doc, &order, &no_lb(), &no_over(), true);
    assert!(out.changed);
    assert_eq!(
        out.text,
        "{\n  \"name\": \"x\",\n  \"version\": \"1.0.0\",\n  \"license\": \"MIT\",\n  \"z\": 1,\n  \"a\": 2\n}\n"
    );
}

#[test]
fn format_between_groups_inserts_single_blank_lines() {
    let original = "{\n  \"name\": \"x\",\n  \"license\": \"MIT\",\n  \"scripts\": {},\n  \"dependencies\": {}\n}\n";
    let doc = obj(vec![
        ("name", txt("x")),
        ("license", txt("MIT")),
        ("scripts", obj(vec![])),
        ("dependencies", obj(vec![])),
    ]);
    let order = OrderPolicy {
        top: groups(vec![vec!["name"], vec!["license"], vec!["scripts", "dependencies"]]),
        sub: Vec::new(),
    };
    let lb = LinebreakPolicy {
        between_groups: true,
        before_fields: Vec::new(),
        in_fields: Vec::new(),
    };
    let out = format_document(original, &doc, &order, &lb, &no_over(), true);
    assert!(out.text.starts_with("{\n  \"name\""));
    assert!(out.text.contains("\n\n  \"scripts\""));
    assert!(!out.text.contains("\"scripts\": {},\n\n  \"dependencies\""));
    assert_eq!(
        out.text,
        "{\n  \"name\": \"x\",\n\n  \"license\": \"MIT\",\n\n  \"scripts\": {},\n  \"dependencies\": {}\n}\n"
    );
}

#[test]
fn format_before_field_none_beats_group_rule_and_keep_restores() {
    let original = "{\n  \"name\": \"x\",\n\n  \"license\": \"MIT\",\n  \"scripts\": {}\n}\n";
    let doc = obj(vec![
        ("name", txt("x")),
        ("license", txt("MIT")),
        ("scripts", obj(vec![])),
    ]);
    let order = OrderPolicy {
        top: groups(vec![vec!["name"], vec!["license"], vec!["scripts"]]),
        sub: Vec::new(),
    };
    let lb = LinebreakPolicy {
        between_groups: true,
        before_fields: pairs(vec![("license", "none")]),
        in_fields: Vec::new(),
    };
    // The field-level `none` beats the between-groups rule.
    let out = format_document(original, &doc, &order, &lb, &no_over(), true);
    assert_eq!(
        out.text,
        "{\n  \"name\": \"x\",\n  \"license\": \"MIT\",\n\n  \"scripts\": {}\n}\n"
    );
    // A caller-level `keep` beats the policy and reads the original.
    let over = LbOverrides {
        between_groups: None,
        before_fields: pairs(vec![("license", "keep")]),
        in_fields: Vec::new(),
    };
    let out2 = format_document(original, &doc, &order, &lb, &over, true);
    assert_eq!(
        out2.text,
        "{\n  \"name\": \"x\",\n\n  \"license\": \"MIT\",\n\n  \"scripts\": {}\n}\n"
    );
}

#[test]
fn format_in_field_keep_preserves_blank_through_reorder() {
    let original = "{\n  \"scripts\": {\n    \"build\": \"echo build\",\n\n    \"test\": \"echo test\"\n  },\n  \"name\": \"x\"\n}\n";
    let doc = obj(vec![
        (
            "scripts",
            obj(vec![("build", txt("echo build")), ("test", txt("echo test"))]),
        ),
        ("name", txt("x")),
    ]);
    let order = OrderPolicy {
        top: groups(vec![vec!["name"], vec!["scripts"]]),
        sub: Vec::new(),
    };
    let lb = LinebreakPolicy {
        between_groups: false,
        before_fields: Vec::new(),
        in_fields: pairs(vec![("scripts", "keep")]),
    };
    let out = format_document(original, &doc, &order, &lb, &no_over(), true);
    assert_eq!(
        out.text,
        "{\n  \"name\": \"x\",\n  \"scripts\": {\n    \"build\": \"echo build\",\n\n    \"test\": \"echo test\"\n  }\n}\n"
    );
    assert!(out.text.contains("\"build\": \"echo build\",\n\n    \"test\""));
}

#[test]
fn format_twice_reports_no_change() {
    let original = "{\n  \"scripts\": {\n    \"build\": \"echo build\",\n\n    \"test\": \"echo test\"\n  },\n  \"name\": \"x\"\n}\n";
    let doc = obj(vec![
        (
            "scripts",
            obj(vec![("build", txt("echo build")), ("test", txt("echo test"))]),
        ),
        ("name", txt("x")),
    ]);
    let order = OrderPolicy {
        top: groups(vec![vec!["name"], vec!["scripts"]]),
        sub: Vec::new(),
    };
    let lb = LinebreakPolicy {
        between_groups: true,
        before_fields: Vec::new(),
        in_fields: pairs(vec![("scripts", "keep")]),
    };
    let first = format_document(original, &doc, &order, &lb, &no_over(), true);
    assert!(first.changed);
    // The loader would hand the second run the reordered tree.
    let doc2 = obj(vec![
        ("name", txt("x")),
        (
            "scripts",
            obj(vec![("build", txt("echo build")), ("test", txt("echo test"))]),
        ),
    ]);
    let second = format_document(first.text.as_str(), &doc2, &order, &lb, &no_over(), true);
    assert!(!second.changed);
    assert_eq!(second.text, first.text);
}

#[test]
fn lenient_mode_reorders_but_keeps_original_blanks() {
    let original = "{\n  \"b\": 1,\n\n  \"a\": 2\n}\n";
    let doc = obj(vec![("b", JsonValue::Int(1)), ("a", JsonValue::Int(2))]);
    let order = OrderPolicy { top: groups(vec![vec!["a"]]), sub: Vec::new() };
    let out = format_document(original, &doc, &order, &no_lb(), &no_over(), false);
    // `a` keeps the blank line that preceded it in the source.
    assert_eq!(out.text, "{\n\n  \"a\": 2,\n  \"b\": 1\n}\n");
}

#[test]
fn sub_grouping_reorders_nested_children() {
    let original = "{\n  \"meta\": {\n    \"b\": 2,\n    \"a\": 1\n  }\n}\n";
    let doc = obj(vec![(
        "meta",
        obj(vec![("b", JsonValue::Int(2)), ("a", JsonValue::Int(1))]),
    )]);
    let order = OrderPolicy {
        top: groups(vec![vec!["meta"]]),
        sub: vec![("meta".to_string(), groups(vec![vec!["a"], vec!["b"]]))],
    };
    let out = format_document(original, &doc, &order, &no_lb(), &no_over(), true);
    assert_eq!(out.text, "{\n  \"meta\": {\n    \"a\": 1,\n    \"b\": 2\n  }\n}\n");
}

#[test]
fn rendering_escapes_and_numbers_are_canonical() {
    let doc = obj(vec![
        ("a", JsonValue::Dec(15, 1)),
        ("b", JsonValue::Int(-3)),
        ("c", txt("x\"y\nz")),
        ("d", JsonValue::Dec(5, 2)),
        ("e", JsonValue::Dec(-15, 1)),
    ]);
    let out = format_document("", &doc, &no_order(), &no_lb(), &no_over(), true);
    assert_eq!(
        out.text,
        "{\n  \"a\": 1.5,\n  \"b\": -3,\n  \"c\": \"x\\\"y\\nz\",\n  \"d\": 0.05,\n  \"e\": -1.5\n}\n"
    );
}

#[test]
fn rendering_nests_arrays_and_objects() {
    let doc = obj(vec![(
        "a",
        JsonValue::Arr(vec![
            JsonValue::Int(1),
            obj(vec![("b", JsonValue::Int(2))]),
            JsonValue::Arr(vec![]),
        ]),
    )]);
    let out = format_document("", &doc, &no_order(), &no_lb(), &no_over(), true);
    assert_eq!(
        out.text,
        "{\n  \"a\": [\n    1,\n    {\n      \"b\": 2\n    },\n    []\n  ]\n}\n"
    );
    // An empty document renders as an empty object.
    let out2 = format_document("{}\n", &obj(vec![]), &no_order(), &no_lb(), &no_over(), true);
    assert_eq!(out2.text, "{}\n");
    assert!(!out2.changed);
}

#[test]
fn order_issue_reports_misordered_keys_with_level() {
    let doc = obj(vec![("version", txt("1.0.0")), ("name", txt("x"))]);
    let order = OrderPolicy {
        top: groups(vec![vec!["name"], vec!["version"]]),
        sub: Vec::new(),
    };
    let msg = Some("Keys must start with name,version".to_string());
    let lvl = Some("warn".to_string());
    let issue = order_issue(&doc, &order, &msg, &lvl, "package.json", "pkgjson").unwrap();
    assert_eq!(issue.severity, "warn");
    assert_eq!(issue.message, "Keys must start with name,version");

    let ok_doc = obj(vec![("name", txt("x")), ("version", txt("1.0.0"))]);
    assert!(order_issue(&ok_doc, &order, &msg, &lvl, "package.json", "pkgjson").is_none());
}
