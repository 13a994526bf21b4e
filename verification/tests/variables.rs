use qurli::json::{parse_json, JsonValue};
use qurli::variables::{
    apply_extraction_rules, extract_json_path, json_value_to_string, parse_extraction_rules,
    substitute, RuntimeVariable, VariableStore,
};

fn store_with(entries: &[(&str, &str, bool)]) -> VariableStore {
    let mut variables = VariableStore::new();
    for (key, value, secret) in entries {
        variables.insert(
            key.to_string(),
            RuntimeVariable {
                key: key.to_string(),
                value: value.to_string(),
                secret: *secret,
            },
        );
    }
    variables
}

#[test]
fn substitutes_known_variables_and_reports_missing_ones() {
    let variables = store_with(&[("token", "abc123", true)]);

    let result = substitute("Bearer {{ token }} {{missing}}", &variables, false);
    assert_eq!(result.value, "Bearer abc123 {{missing}}");
    assert_eq!(result.unresolved, vec!["missing"]);

    let masked = substitute("Bearer {{token}}", &variables, true);
    assert_eq!(masked.value, "Bearer ********");
}

#[test]
fn parses_extraction_rules() {
    let rules = parse_extraction_rules("token = $.access_token\n# comment\nuser_id = $.user.id");
    assert_eq!(rules.len(), 2);
    assert_eq!(rules[0].variable_name, "token");
    assert!(rules[0].secret);
    assert_eq!(rules[1].json_path, "$.user.id");
}

#[test]
fn extracts_simple_dot_paths_and_array_indexes() {
    let json = JsonValue::Object(vec![
        ("access_token".to_string(), JsonValue::Str("abc123".to_string())),
        (
            "items".to_string(),
            JsonValue::Array(vec![JsonValue::Object(vec![(
                "id".to_string(),
                JsonValue::Str("first".to_string()),
            )])]),
        ),
        (
            "user".to_string(),
            JsonValue::Object(vec![("id".to_string(), JsonValue::Number("42".to_string()))]),
        ),
    ]);

    assert_eq!(
        extract_json_path(&json, "$.access_token").map(json_value_to_string),
        Some("abc123".to_string())
    );
    assert_eq!(
        extract_json_path(&json, "$.user.id").map(json_value_to_string),
        Some("42".to_string())
    );
    assert_eq!(
        extract_json_path(&json, "$.items[0].id").map(json_value_to_string),
        Some("first".to_string())
    );
    assert!(extract_json_path(&json, "$.items[1].id").is_none());
}

#[test]
fn applies_extraction_rules_to_runtime_store() {
    let rules = parse_extraction_rules("token = $.access_token\nuser_id = $.user.id");
    let mut variables = VariableStore::new();
    let count = apply_extraction_rules(
        r#"{"access_token":"abc123","user":{"id":42}}"#,
        &rules,
        &mut variables,
    )
    .unwrap();

    assert_eq!(count, 2);
    assert_eq!(variables.get("token").unwrap().value, "abc123");
    assert!(variables.get("token").unwrap().secret);
    assert_eq!(variables.get("user_id").unwrap().value, "42");
    assert!(!variables.get("user_id").unwrap().secret);
}

#[test]
fn store_insert_replaces_and_keeps_one_entry_per_name() {
    let mut variables = store_with(&[("a", "1", false), ("b", "2", false)]);
    variables.insert(
        "a".to_string(),
        RuntimeVariable { key: "a".to_string(), value: "3".to_string(), secret: true },
    );
    assert_eq!(variables.entries().len(), 2);
    assert_eq!(variables.get("a").unwrap().value, "3");
    assert!(variables.get("a").unwrap().secret);
    assert_eq!(variables.get("b").unwrap().value, "2");
    assert!(variables.get("c").is_none());
}

#[test]
fn substitution_without_placeholders_is_identity() {
    let variables = store_with(&[("x", "y", false)]);
    let result = substitute("plain {text} } {", &variables, true);
    assert_eq!(result.value, "plain {text} } {");
    assert!(result.unresolved.is_empty());
}

#[test]
fn substitution_edge_cases() {
    let variables = store_with(&[("x", "value", false), ("key", "abcdefghij", true)]);
    // an unterminated placeholder is kept as it is
    let r = substitute("a {{x", &variables, false);
    assert_eq!(r.value, "a {{x");
    assert!(r.unresolved.is_empty());
    // missing names are reported sorted, each once
    let r = substitute("{{b}}{{a}}{{ b }}{{x}}", &variables, false);
    assert_eq!(r.value, "{{b}}{{a}}{{b}}value");
    assert_eq!(r.unresolved, vec!["a", "b"]);
    // a masked secret shows its ends only when long enough
    let r = substitute("{{key}}", &variables, true);
    assert_eq!(r.value, "abc...hij");
    let r = substitute("{{key}}", &variables, false);
    assert_eq!(r.value, "abcdefghij");
    // a non-secret is never masked
    let r = substitute("{{ x }}", &variables, true);
    assert_eq!(r.value, "value");
}

#[test]
fn extraction_rule_parsing_edge_cases() {
    let rules = parse_extraction_rules(
        "\n  # note\nnoequals\n = $.a\nname =   \n  api_key =  $.k  \nplain=$.p",
    );
    assert_eq!(rules.len(), 2);
    assert_eq!(rules[0].variable_name, "api_key");
    assert_eq!(rules[0].json_path, "$.k");
    assert!(rules[0].secret);
    assert_eq!(rules[1].variable_name, "plain");
    assert_eq!(rules[1].json_path, "$.p");
    assert!(!rules[1].secret);
}

#[test]
fn extraction_paths_need_the_dollar_dot_prefix() {
    let json = parse_json(r#"{"a":{"b":[10,{"c":true}]},"n":null,"s":"t"}"#).unwrap();
    assert!(extract_json_path(&json, "a.b").is_none());
    assert!(extract_json_path(&json, "$").is_none());
    assert_eq!(
        extract_json_path(&json, "  $.a.b[0]  ").map(json_value_to_string),
        Some("10".to_string())
    );
    assert_eq!(
        extract_json_path(&json, "$.a.b[1].c").map(json_value_to_string),
        Some("true".to_string())
    );
    assert_eq!(
        extract_json_path(&json, "$.n").map(json_value_to_string),
        Some("null".to_string())
    );
    assert_eq!(
        extract_json_path(&json, "$.a").map(json_value_to_string),
        Some(r#"{"b":[10,{"c":true}]}"#.to_string())
    );
    assert!(extract_json_path(&json, "$.a.b[x]").is_none());
    assert!(extract_json_path(&json, "$.s.t").is_none());
}

#[test]
fn extraction_errors_and_partial_matches() {
    let rules = parse_extraction_rules("a = $.missing\nb = $.here");
    let mut variables = store_with(&[("keep", "1", false)]);
    let err = apply_extraction_rules("not json", &rules, &mut variables).unwrap_err();
    assert!(err.starts_with("Response is not valid JSON: "));
    assert_eq!(variables.entries().len(), 1);

    let count = apply_extraction_rules(r#"{"here":"x"}"#, &rules, &mut variables).unwrap();
    assert_eq!(count, 1);
    assert!(variables.get("a").is_none());
    assert_eq!(variables.get("b").unwrap().value, "x");
    assert_eq!(variables.get("keep").unwrap().value, "1");

    let none = apply_extraction_rules("not json", &[], &mut variables).unwrap();
    assert_eq!(none, 0);
}

#[test]
fn later_matching_rule_of_the_same_name_wins() {
    let rules = parse_extraction_rules("v = $.a\nv = $.b\nw = $.b\nw = $.missing");
    let mut variables = VariableStore::new();
    let count = apply_extraction_rules(r#"{"a":"first","b":"second"}"#, &rules, &mut variables)
        .unwrap();
    assert_eq!(count, 3);
    assert_eq!(variables.get("v").unwrap().value, "second");
    assert_eq!(variables.get("w").unwrap().value, "second");
    assert_eq!(variables.entries().len(), 2);
}

#[test]
fn masking_without_secrets_changes_nothing() {
    let variables = store_with(&[("name", "longervalue123", false)]);
    let masked = substitute("{{name}} {{gone}}", &variables, true);
    let plain = substitute("{{name}} {{gone}}", &variables, false);
    assert_eq!(masked.value, plain.value);
    assert_eq!(masked.unresolved, plain.unresolved);
}
