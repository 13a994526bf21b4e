use qurli::app::App;
use qurli::history::{
    history_state_from_app, redact_secret_json_fields, sanitize_auth_line, sanitize_body_lines,
    sanitize_header_line,
};
use qurli::json::{parse_json, render_text};
use qurli::request::Method;

fn lines(items: &[&str]) -> Vec<String> {
    items.iter().map(|s| s.to_string()).collect()
}

#[test]
fn history_serialization_redacts_direct_secrets_but_keeps_templates() {
    let mut app = App::new();
    app.headers_input = lines(&["Authorization: Bearer abc123", "X-Api-Key: {{api_key}}"]);
    app.auth_input = lines(&["abc123"]);
    app.body_input =
        lines(&[r#"{"password":"pass","nested":{"refresh_token":"rt","name":"aniket"}}"#]);
    app.extraction_input = lines(&["token = $.access_token"]);

    let state = history_state_from_app(&app);
    let json = [
        state.url.join("\n"),
        state.headers.join("\n"),
        state.body.join("\n"),
        state.auth.join("\n"),
        state.extraction_rules.join("\n"),
    ]
    .join("\n");

    assert!(json.contains("Authorization: <redacted>"));
    assert!(json.contains("X-Api-Key: {{api_key}}"));
    assert!(json.contains("<redacted>"));
    assert!(!json.contains("abc123"));
    assert!(!json.contains(r#""pass""#));
    assert!(!json.contains(r#""rt""#));
    assert!(json.contains("token = $.access_token"));
}

#[test]
fn history_persists_and_loads_request_templates() {
    let mut app = App::new();
    app.method = Method::Post;
    app.url_input = lines(&["{{base_url}}/login"]);
    app.headers_input = lines(&["Authorization: Bearer {{token}}"]);
    app.body_input = lines(&[r#"{"username":"aniket"}"#]);
    app.extraction_input = lines(&["token = $.access_token"]);

    let state = history_state_from_app(&app);
    let mut loaded = App::new();
    loaded.restore_history(state);

    assert_eq!(loaded.method, Method::Post);
    assert_eq!(loaded.url_input, lines(&["{{base_url}}/login"]));
    assert_eq!(loaded.headers_input, lines(&["Authorization: Bearer {{token}}"]));
    assert_eq!(loaded.extraction_input, lines(&["token = $.access_token"]));
    assert_eq!(loaded.body_input, lines(&["{", "  \"username\": \"aniket\"", "}"]));
}

#[test]
fn header_lines_are_sanitized_one_by_one() {
    assert_eq!(sanitize_header_line("  X-Token : abc "), "X-Token: <redacted>");
    assert_eq!(sanitize_header_line("Accept: text/plain"), "Accept: text/plain");
    assert_eq!(sanitize_header_line("no colon token"), "no colon token");
    assert_eq!(sanitize_header_line("Secret: {{s}}"), "Secret: {{s}}");
    assert_eq!(sanitize_header_line("Password:"), "Password: <redacted>");
}

#[test]
fn auth_lines_are_redacted_unless_blank_or_templated() {
    assert_eq!(sanitize_auth_line("abc"), "<redacted>");
    assert_eq!(sanitize_auth_line("   "), "   ");
    assert_eq!(sanitize_auth_line(""), "");
    assert_eq!(sanitize_auth_line("Bearer {{t}}"), "Bearer {{t}}");
}

#[test]
fn body_lines_are_redacted_as_json() {
    assert_eq!(sanitize_body_lines(&lines(&["not", "json"])), lines(&["not", "json"]));
    assert_eq!(sanitize_body_lines(&lines(&["  ", ""])), lines(&["  ", ""]));
    assert_eq!(
        sanitize_body_lines(&lines(&[r#"[{"api_key":"k","t":"{{x}}"}]"#])),
        lines(&["[", "  {", "    \"api_key\": \"<redacted>\",", "    \"t\": \"{{x}}\"", "  }", "]"])
    );
}

#[test]
fn json_secret_fields_are_redacted_deeply() {
    let v = parse_json(
        r#"{"a":[{"token":5}],"password":"{{p}}","secret":{"x":1},"name":"n"}"#,
    )
    .unwrap();
    let clean = redact_secret_json_fields(&v);
    assert_eq!(
        render_text(&clean),
        r#"{"a":[{"token":"<redacted>"}],"name":"n","password":"{{p}}","secret":"<redacted>"}"#
    );
}

#[test]
fn empty_saved_inputs_come_back_as_one_empty_line() {
    let app = App::new();
    let mut state = history_state_from_app(&app);
    state.url = vec![];
    let mut loaded = App::new();
    loaded.url_input = lines(&["x"]);
    loaded.restore_history(state);
    assert_eq!(loaded.url_input, lines(&[""]));
}

#[test]
fn redacting_twice_is_redacting_once() {
    let v = parse_json(r#"{"token":"x","inner":[{"password":"p","keep":1}]}"#).unwrap();
    let once = redact_secret_json_fields(&v);
    let twice = redact_secret_json_fields(&once);
    assert_eq!(render_text(&once), render_text(&twice));
    assert_eq!(
        render_text(&once),
        r#"{"inner":[{"keep":1,"password":"<redacted>"}],"token":"<redacted>"}"#
    );
}

#[test]
fn saving_an_auth_line_twice_is_saving_it_once() {
    for line in ["abc", "", "  ", "{{t}}", "<redacted>"] {
        let once = sanitize_auth_line(line);
        assert_eq!(sanitize_auth_line(&once), once);
    }
}

#[test]
fn saved_template_leaves_out_runtime_variables() {
    let mut a = App::new();
    a.url_input = lines(&["{{host}}"]);
    let mut b = App::new();
    b.url_input = lines(&["{{host}}"]);
    b.variables.insert(
        "host".to_string(),
        qurli::variables::RuntimeVariable {
            key: "host".to_string(),
            value: "secret-host".to_string(),
            secret: true,
        },
    );
    let sa = history_state_from_app(&a);
    let sb = history_state_from_app(&b);
    assert_eq!(sa.url, sb.url);
    assert_eq!(sa.headers, sb.headers);
    assert_eq!(sa.body, sb.body);
    assert_eq!(sa.auth, sb.auth);
    assert_eq!(sa.extraction_rules, sb.extraction_rules);
}
