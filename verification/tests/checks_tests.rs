use rigra::checks::{run_checks, Check};
use rigra::json::JsonValue;

fn txt(s: &str) -> JsonValue {
    JsonValue::Text(s.to_string())
}

fn obj(entries: Vec<(&str, JsonValue)>) -> JsonValue {
    JsonValue::Obj(entries.into_iter().map(|(k, v)| (k.to_string(), v)).collect())
}

#[test]
fn test_run_checks_various_and_nested() {
    let json = obj(vec![
        ("name", JsonValue::Int(123)),
        ("version", txt("1.0.0")),
        ("nested", obj(vec![("x", txt("abc"))])),
        ("choice", txt("gamma")),
        ("short", txt("a")),
        ("long", txt("abcdef")),
    ]);
    let checks = vec![
        Check::Required {
            fields: vec!["nested.x".to_string(), "missing.field".to_string()],
            message: None,
            level: None,
        },
        Check::TypeOf {
            fields: vec![
                ("name".to_string(), "string".to_string()),
                ("version".to_string(), "string".to_string()),
            ],
            message: None,
            level: None,
        },
        Check::Const {
            field: "version".to_string(),
            value: txt("2.0.0"),
            message: None,
            level: None,
        },
        Check::Pattern {
            field: "nested.x".to_string(),
            regex: "^xyz$".to_string(),
            message: None,
            level: None,
        },
        Check::Enum {
            field: "choice".to_string(),
            values: vec![txt("alpha"), txt("beta")],
            message: None,
            level: None,
        },
        Check::MinLength { field: "short".to_string(), min: 2, message: None, level: None },
        Check::MaxLength { field: "long".to_string(), max: 5, message: None, level: None },
    ];
    let issues = run_checks(&checks, &json, "package.json", "t");
    assert!(issues.iter().any(|i| i.path == "$.missing.field"));
    assert!(issues.iter().any(|i| i.path == "$.name"));
    assert!(issues.iter().any(|i| i.path == "$.version"));
    assert!(issues.iter().any(|i| i.path == "$.nested.x"));
    assert!(issues.iter().any(|i| i.path == "$.choice"));
    assert!(issues.iter().any(|i| i.path == "$.short"));
    assert!(issues.iter().any(|i| i.path == "$.long"));
}

#[test]
fn test_type_fields_all_kinds_match() {
    let json = obj(vec![
        ("s", txt("str")),
        ("n", JsonValue::Dec(15, 1)),
        ("i", JsonValue::Int(2)),
        ("b", JsonValue::Bool(true)),
        ("a", JsonValue::Arr(vec![JsonValue::Int(1), JsonValue::Int(2), JsonValue::Int(3)])),
        ("o", obj(vec![("k", txt("v"))])),
        ("z", JsonValue::Null),
    ]);
    let checks = vec![Check::TypeOf {
        fields: vec![
            ("s".to_string(), "string".to_string()),
            ("n".to_string(), "number".to_string()),
            ("i".to_string(), "integer".to_string()),
            ("b".to_string(), "boolean".to_string()),
            ("a".to_string(), "array".to_string()),
            ("o".to_string(), "object".to_string()),
            ("z".to_string(), "null".to_string()),
        ],
        message: None,
        level: None,
    }];
    let issues = run_checks(&checks, &json, "file.json", "rule");
    assert!(issues.is_empty());
}

#[test]
fn test_type_fields_all_kinds_mismatch() {
    let json = obj(vec![
        ("s", JsonValue::Int(10)),
        ("n", txt("not-number")),
        ("i", JsonValue::Dec(15, 1)),
        ("b", txt("true")),
        ("a", obj(vec![("not", txt("array"))])),
        ("o", JsonValue::Arr(vec![JsonValue::Int(1), JsonValue::Int(2), JsonValue::Int(3)])),
        ("z", txt("not-null")),
    ]);
    let checks = vec![Check::TypeOf {
        fields: vec![
            ("s".to_string(), "string".to_string()),
            ("n".to_string(), "number".to_string()),
            ("i".to_string(), "integer".to_string()),
            ("b".to_string(), "boolean".to_string()),
            ("a".to_string(), "array".to_string()),
            ("o".to_string(), "object".to_string()),
            ("z".to_string(), "null".to_string()),
        ],
        message: Some("Type mismatch at {{path}}, expected {{kind}}, got {{actual}}".to_string()),
        level: None,
    }];
    let issues = run_checks(&checks, &json, "file.json", "rule");
    assert_eq!(issues.len(), 7);
    let paths: std::collections::HashSet<_> = issues.iter().map(|i| i.path.clone()).collect();
    for p in ["$.s", "$.n", "$.i", "$.b", "$.a", "$.o", "$.z"].iter() {
        assert!(paths.contains(&p.to_string()));
    }
    let msg_s = issues.iter().find(|i| i.path == "$.s").unwrap().message.clone();
    assert!(msg_s.contains("got integer"));
    let msg_a = issues.iter().find(|i| i.path == "$.a").unwrap().message.clone();
    assert!(msg_a.contains("got object"));
}

#[test]
fn test_required_only_missing_reported() {
    let json = obj(vec![("a", JsonValue::Int(1)), ("b", JsonValue::Int(2))]);
    let checks = vec![Check::Required {
        fields: vec!["a".to_string(), "c".to_string()],
        message: None,
        level: None,
    }];
    let issues = run_checks(&checks, &json, "file.json", "rule");
    assert_eq!(issues.len(), 1);
    assert_eq!(issues[0].path, "$.c");
}

#[test]
fn test_const_match_and_mismatch() {
    let json = obj(vec![("x", txt("y")), ("n", JsonValue::Int(3))]);
    let checks = vec![
        Check::Const {
            field: "x".to_string(),
            value: txt("y"),
            message: Some("Field at {{path}} must equal {{expected}}, got {{actual}}".to_string()),
            level: None,
        },
        Check::Const {
            field: "n".to_string(),
            value: JsonValue::Int(4),
            message: Some("Field at {{path}} must equal {{expected}}, got {{actual}}".to_string()),
            level: None,
        },
    ];
    let issues = run_checks(&checks, &json, "file.json", "rule");
    assert_eq!(issues.len(), 1);
    assert_eq!(issues[0].path, "$.n");
    assert!(issues[0].message.contains("must equal 4"));
    assert!(issues[0].message.contains("got 3") || issues[0].message.contains("3"));
    assert!(issues[0].message.contains("$.n"));
}

#[test]
fn test_pattern_match_and_mismatch() {
    let json = obj(vec![("v", txt("1.2.3")), ("w", txt("nope"))]);
    let checks = vec![
        Check::Pattern {
            field: "v".to_string(),
            regex: "^\\d+\\.\\d+\\.\\d+$".to_string(),
            message: Some("Value '{{actual}}' at {{path}} must match {{pattern}}".to_string()),
            level: None,
        },
        Check::Pattern {
            field: "w".to_string(),
            regex: "^\\d+$".to_string(),
            message: Some("Value '{{actual}}' at {{path}} must match {{pattern}}".to_string()),
            level: None,
        },
    ];
    let issues = run_checks(&checks, &json, "file.json", "rule");
    assert_eq!(issues.len(), 1);
    assert_eq!(issues[0].path, "$.w");
    assert_eq!(issues[0].message, "Value 'nope' at $.w must match ^\\d+$");
}

#[test]
fn test_enum_match_and_mismatch() {
    let json = obj(vec![("k", txt("b")), ("n", JsonValue::Int(2))]);
    let checks = vec![
        Check::Enum {
            field: "k".to_string(),
            values: vec![txt("a"), txt("b")],
            message: Some(
                "Value at {{path}} must be one of {{expected}}, got {{actual}}".to_string(),
            ),
            level: None,
        },
        Check::Enum {
            field: "n".to_string(),
            values: vec![JsonValue::Int(1), JsonValue::Int(3)],
            message: Some(
                "Value at {{path}} must be one of {{expected}}, got {{actual}}".to_string(),
            ),
            level: None,
        },
    ];
    let issues = run_checks(&checks, &json, "file.json", "rule");
    assert_eq!(issues.len(), 1);
    assert_eq!(issues[0].path, "$.n");
    assert!(issues[0].message.contains("one of"));
    assert!(issues[0].message.contains("2"));
    assert!(issues[0].message.contains("$.n"));
}

#[test]
fn test_min_max_length_boundaries() {
    let json = obj(vec![
        ("s1", txt("ab")),
        ("s2", txt("a")),
        ("s3", txt("abc")),
        ("s4", txt("abcdef")),
    ]);
    let checks = vec![
        Check::MinLength {
            field: "s1".to_string(),
            min: 2,
            message: Some(
                "String at {{path}} length must be >= {{expected}}, got {{actual}}".to_string(),
            ),
            level: None,
        },
        Check::MinLength {
            field: "s2".to_string(),
            min: 2,
            message: Some(
                "String at {{path}} length must be >= {{expected}}, got {{actual}}".to_string(),
            ),
            level: None,
        },
        Check::MaxLength {
            field: "s3".to_string(),
            max: 3,
            message: Some(
                "String at {{path}} length must be <= {{expected}}, got {{actual}}".to_string(),
            ),
            level: None,
        },
        Check::MaxLength {
            field: "s4".to_string(),
            max: 5,
            message: Some(
                "String at {{path}} length must be <= {{expected}}, got {{actual}}".to_string(),
            ),
            level: None,
        },
    ];
    let issues = run_checks(&checks, &json, "file.json", "rule");
    let paths: std::collections::HashSet<_> = issues.iter().map(|i| i.path.clone()).collect();
    assert_eq!(issues.len(), 2);
    assert!(paths.contains("$.s2"));
    assert!(paths.contains("$.s4"));
    let m2 = issues.iter().find(|i| i.path == "$.s2").unwrap().message.clone();
    assert!(m2.contains("$.s2"));
    assert!(m2.contains(">= 2"));
    let m4 = issues.iter().find(|i| i.path == "$.s4").unwrap().message.clone();
    assert!(m4.contains("$.s4"));
    assert!(m4.contains("<= 5"));
}

#[test]
fn test_required_message_interpolation_path() {
    let json = obj(vec![("a", JsonValue::Int(1))]);
    let checks = vec![Check::Required {
        fields: vec!["a".to_string(), "b".to_string()],
        message: Some("Field '{{field}}' missing at {{path}}".to_string()),
        level: None,
    }];
    let issues = run_checks(&checks, &json, "file.json", "rule");
    assert_eq!(issues.len(), 1);
    assert_eq!(issues[0].path, "$.b");
    assert_eq!(issues[0].message, "Field 'b' missing at $.b");
}
