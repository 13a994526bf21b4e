use qurli::response::{format_json_body, status_kind, StatusKind};

#[test]
fn formats_json_response_body() {
    let formatted = format_json_body(r#"{"access_token":"abc123","user":{"id":42}}"#);
    assert!(formatted.contains("\n"));
    assert!(formatted.contains(r#""access_token": "abc123""#));
}

#[test]
fn leaves_non_json_response_body_unchanged() {
    assert_eq!(format_json_body("plain text"), "plain text");
}

#[test]
fn pretty_text_is_exact() {
    assert_eq!(format_json_body(r#"{"b":[1,2],"a":{}}"#), "{\n  \"a\": {},\n  \"b\": [\n    1,\n    2\n  ]\n}");
    assert_eq!(format_json_body(""), "");
}

#[test]
fn status_kinds() {
    assert_eq!(status_kind(200), StatusKind::Success);
    assert_eq!(status_kind(299), StatusKind::Success);
    assert_eq!(status_kind(301), StatusKind::Redirect);
    assert_eq!(status_kind(404), StatusKind::Failure);
    assert_eq!(status_kind(599), StatusKind::Failure);
    assert_eq!(status_kind(600), StatusKind::Other);
    assert_eq!(status_kind(0), StatusKind::Other);
    assert_eq!(status_kind(199), StatusKind::Other);
}
