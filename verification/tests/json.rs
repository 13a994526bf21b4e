use qurli::json::{parse_json, read_json_text, render_text, JsonValue};

#[test]
fn parse_json_reads_values_in_serde_order() {
    let v = parse_json(r#" { "b" : [1, 2.5, -3e2], "a" : null, "c": "x\"y\u00e9" } "#).unwrap();
    assert_eq!(render_text(&v), r#"{"a":null,"b":[1,2.5,-300.0],"c":"x\"yé"}"#);
    match v {
        JsonValue::Object(members) => {
            assert_eq!(members.len(), 3);
            assert_eq!(members[0].0, "a");
            assert!(matches!(members[0].1, JsonValue::Null));
        }
        _ => panic!("expected an object"),
    }
}

#[test]
fn parse_json_reports_serde_errors() {
    let err = parse_json("{").unwrap_err();
    assert!(err.contains("EOF"));
    assert!(parse_json("plain text").is_err());
}

#[test]
fn compact_text_reads_back_to_itself() {
    for text in [
        r#"{"a":[true,false,null],"b":{"c":"\n\t\\"}}"#,
        r#"[]"#,
        r#""just a string""#,
        r#"-12"#,
        r#"{}"#,
    ] {
        let v = read_json_text(text).unwrap();
        assert_eq!(render_text(&v), text);
    }
    assert!(read_json_text("[1,]").is_none());
    assert!(read_json_text(" 1").is_none());
}

#[test]
fn control_characters_are_escaped() {
    let v = JsonValue::Str("a\u{1}b\u{8}".to_string());
    assert_eq!(render_text(&v), "\"a\\u0001b\\b\"");
}

#[test]
fn serde_compact_text_always_reads_back() {
    for text in [
        r#"{"a":1.5e300,"b":-0.0,"c":"\u0001\u007f/é","d":[[],{}],"e":12345678901234567890}"#,
        r#"  [ "tab\there", null , true,false ]"#,
        "\"\\ud83d\\ude00\"",
    ] {
        assert!(parse_json(text).is_ok());
    }
}
