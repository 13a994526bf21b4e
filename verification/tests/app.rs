use qurli::app::{Action, ActivePane, App, KeyCode, KeyEvent, Mode};
use qurli::keybindings::is_quit;
use qurli::request::Method;
use qurli::response::ResponseState;
use qurli::variables::RuntimeVariable;

fn lines(items: &[&str]) -> Vec<String> {
    items.iter().map(|s| s.to_string()).collect()
}

fn key(c: char) -> KeyEvent {
    KeyEvent { code: KeyCode::Char(c), control: false }
}

fn ctrl(c: char) -> KeyEvent {
    KeyEvent { code: KeyCode::Char(c), control: true }
}

fn plain(code: KeyCode) -> KeyEvent {
    KeyEvent { code, control: false }
}

fn set_var(app: &mut App, name: &str, value: &str, secret: bool) {
    app.variables.insert(
        name.to_string(),
        RuntimeVariable { key: name.to_string(), value: value.to_string(), secret },
    );
}

fn ok_response(body: &str) -> ResponseState {
    ResponseState {
        status: 200,
        status_text: "200 OK".to_string(),
        duration: 10,
        headers: vec![],
        body: body.to_string(),
    }
}

#[test]
fn substitutes_variables_into_request_fields() {
    let mut app = App::new();
    app.url_input = lines(&["{{base_url}}/me"]);
    app.headers_input = lines(&["Authorization: Bearer {{token}}"]);
    set_var(&mut app, "base_url", "https://api.example.com", false);
    set_var(&mut app, "token", "abc123", true);

    let input = app.substituted_request(false).unwrap();
    assert_eq!(input.url, "https://api.example.com/me");
    assert!(input.headers.contains("Bearer abc123"));

    let safe = app.substituted_request(true).unwrap();
    assert!(safe.headers.contains("Bearer ********"));
}

#[test]
fn reports_unresolved_variables() {
    let mut app = App::new();
    app.url_input = lines(&["{{missing}}/me"]);

    assert_eq!(app.substituted_request(false).unwrap_err(), vec!["missing"]);
}

#[test]
fn extracts_variables_after_response() {
    let mut app = App::new();
    app.extraction_input = lines(&["token = $.access_token", "user_id = $.user.id"]);
    app.response = Some(ok_response(r#"{"access_token":"abc123","user":{"id":42}}"#));

    app.run_extraction_on_latest_response();

    assert_eq!(app.variables.get("token").unwrap().value, "abc123");
    assert!(app.variables.get("token").unwrap().secret);
    assert_eq!(app.variables.get("user_id").unwrap().value, "42");
    assert_eq!(app.status_message, "Extracted 2 variable(s).");
}

#[test]
fn new_app_starts_empty_in_normal_mode() {
    let app = App::new();
    assert_eq!(app.mode, Mode::Normal);
    assert_eq!(app.active_pane, ActivePane::Url);
    assert_eq!(app.method, Method::Get);
    assert_eq!(app.url_input, lines(&[""]));
    assert!(app.response.is_none());
    assert_eq!(app.status_message, "Ready.");
    assert_eq!(app.variable_lines(), vec!["No runtime variables.".to_string()]);
}

#[test]
fn unresolved_names_are_sorted_and_merged_over_fields() {
    let mut app = App::new();
    app.url_input = lines(&["{{zeta}}/{{alpha}}"]);
    app.headers_input = lines(&["X: {{mid}}", "Y: {{alpha}}"]);
    app.auth_input = lines(&["{{zeta}}"]);
    assert_eq!(
        app.substituted_request(false).unwrap_err(),
        vec!["alpha", "mid", "zeta"]
    );
    assert_eq!(app.safe_curl_preview(), "Unresolved variables: alpha, mid, zeta");
}

#[test]
fn url_lines_are_joined_and_trimmed() {
    let mut app = App::new();
    app.url_input = lines(&["  example", ".com/a  "]);
    app.body_input = lines(&["{", "}"]);
    let input = app.substituted_request(false).unwrap();
    assert_eq!(input.url, "example.com/a");
    assert_eq!(input.body, "{\n}");
}

#[test]
fn send_blocks_on_unresolved_variables() {
    let mut app = App::new();
    app.url_input = lines(&["{{b}}{{a}}"]);
    let action = app.handle_key(key('s'));
    assert!(matches!(action, Action::Nothing));
    let res = app.response.as_ref().unwrap();
    assert_eq!(res.status, 0);
    assert_eq!(res.status_text, "Error: unresolved variables");
    assert_eq!(res.body, "Missing variables: a, b");
    assert_eq!(app.status_message, "Request blocked: unresolved {{variables}}.");
    assert!(!app.is_loading);
}

#[test]
fn send_hands_out_the_request_and_waits() {
    let mut app = App::new();
    app.url_input = lines(&["{{host}}/x"]);
    set_var(&mut app, "host", "h.test", false);
    match app.handle_key(ctrl('r')) {
        Action::Send(input) => {
            assert_eq!(input.url, "h.test/x");
            assert_eq!(input.method, Method::Get);
        }
        _ => panic!("expected a request to send"),
    }
    assert!(app.is_loading);
    assert_eq!(app.status_message, "Sending request...");
    // a second send while loading does nothing
    assert!(matches!(app.handle_key(key('s')), Action::Nothing));
    // the reply ends the loading and says it arrived
    app.handle_response(ok_response("plain"));
    assert!(!app.is_loading);
    assert_eq!(app.status_message, "Response received.");
    assert_eq!(app.response.as_ref().unwrap().body, "plain");
}

#[test]
fn plain_r_does_not_send() {
    let mut app = App::new();
    assert!(matches!(app.handle_key(key('r')), Action::Nothing));
    assert!(!app.is_loading);
}

#[test]
fn keys_move_between_panes_and_modes() {
    let mut app = App::new();
    app.handle_key(plain(KeyCode::Tab));
    assert_eq!(app.active_pane, ActivePane::Headers);
    app.handle_key(plain(KeyCode::BackTab));
    app.handle_key(plain(KeyCode::BackTab));
    assert_eq!(app.active_pane, ActivePane::Method);
    app.handle_key(key('b'));
    assert_eq!(app.active_pane, ActivePane::Body);
    assert_eq!(app.mode, Mode::Insert);
    // in insert mode, letters go to the focused input
    assert!(matches!(app.handle_key(key('q')), Action::Edit(ActivePane::Body)));
    assert!(!app.should_quit);
    app.handle_key(plain(KeyCode::Esc));
    assert_eq!(app.mode, Mode::Normal);
    app.handle_key(key('v'));
    assert_eq!(app.active_pane, ActivePane::Extract);
    assert_eq!(app.mode, Mode::Normal);
    app.handle_key(plain(KeyCode::Enter));
    assert_eq!(app.mode, Mode::Insert);
    app.handle_key(plain(KeyCode::Esc));
    app.handle_key(key('q'));
    assert!(app.should_quit);
}

#[test]
fn method_pane_takes_no_input() {
    let mut app = App::new();
    app.active_pane = ActivePane::Method;
    app.mode = Mode::Insert;
    assert!(matches!(app.handle_key(key('x')), Action::Nothing));
}

#[test]
fn control_c_quits_in_any_mode() {
    assert!(is_quit(ctrl('c')));
    assert!(!is_quit(key('c')));
    let mut app = App::new();
    app.mode = Mode::Insert;
    app.handle_key(ctrl('c'));
    assert!(app.should_quit);
}

#[test]
fn method_cycles_through_all_five() {
    let mut app = App::new();
    let mut seen = vec![];
    for _ in 0..5 {
        app.handle_key(key('m'));
        seen.push(app.method);
    }
    assert_eq!(
        seen,
        vec![Method::Post, Method::Put, Method::Patch, Method::Delete, Method::Get]
    );
}

#[test]
fn scrolling_stays_within_the_response() {
    let mut app = App::new();
    app.handle_key(key('j'));
    assert_eq!(app.response_scroll, 0);
    app.response = Some(ok_response("a\nb\nc"));
    app.handle_key(key('j'));
    app.handle_key(plain(KeyCode::Down));
    app.handle_key(key('j'));
    assert_eq!(app.response_scroll, 2);
    app.handle_key(key('k'));
    assert_eq!(app.response_scroll, 1);
    app.handle_key(plain(KeyCode::Up));
    app.handle_key(plain(KeyCode::Up));
    assert_eq!(app.response_scroll, 0);
}

#[test]
fn clear_keeps_rules_and_variables() {
    let mut app = App::new();
    app.url_input = lines(&["x"]);
    app.extraction_input = lines(&["a = $.a"]);
    app.response = Some(ok_response("{}"));
    set_var(&mut app, "k", "v", false);
    assert!(matches!(app.handle_key(ctrl('n')), Action::ClearInputs));
    assert_eq!(app.url_input, lines(&[""]));
    assert_eq!(app.extraction_input, lines(&["a = $.a"]));
    assert!(app.response.is_none());
    assert_eq!(app.variable_lines(), vec!["k = v".to_string()]);
    assert_eq!(app.status_message, "Cleared request inputs. Runtime variables kept.");
}

#[test]
fn copy_actions() {
    let mut app = App::new();
    assert!(matches!(app.handle_key(key('c')), Action::Nothing));
    app.response = Some(ok_response("body"));
    match app.handle_key(key('c')) {
        Action::Copy(t) => assert_eq!(t, "body"),
        _ => panic!("expected a copy"),
    }
    app.url_input = lines(&["h.test"]);
    app.auth_input = lines(&["{{t}}"]);
    assert!(matches!(app.handle_key(key('y')), Action::Nothing));
    set_var(&mut app, "t", "secretvalue1", true);
    match app.handle_key(key('y')) {
        Action::Copy(t) => {
            assert_eq!(t, "curl -X GET 'https://h.test' \\\n  -H 'Authorization: Bearer secretvalue1'")
        }
        _ => panic!("expected a copy"),
    }
    assert_eq!(
        app.safe_curl_preview(),
        "curl -X GET 'https://h.test' \\\n  -H 'Authorization: Bearer sec...ue1'"
    );
}

#[test]
fn extraction_messages() {
    let mut app = App::new();
    app.run_extraction_on_latest_response();
    assert_eq!(app.status_message, "No response available for extraction.");

    app.extraction_input = lines(&["a = $.missing"]);
    app.response = Some(ok_response(r#"{"b":1}"#));
    app.handle_key(key('x'));
    assert_eq!(app.status_message, "No extraction rules matched the response.");

    app.response = Some(ok_response("nope"));
    app.run_extraction_on_latest_response();
    assert!(app.status_message.starts_with("Response is not valid JSON: "));

    // an error response (status 0) is left alone
    app.status_message = "kept".to_string();
    app.response = Some(ResponseState {
        status: 0,
        status_text: "Error: x".to_string(),
        duration: 0,
        headers: vec![],
        body: r#"{"missing":1}"#.to_string(),
    });
    app.run_extraction_on_latest_response();
    assert_eq!(app.status_message, "kept");
    assert!(app.variables.get("a").is_none());
}

#[test]
fn variable_lines_are_sorted_and_masked() {
    let mut app = App::new();
    set_var(&mut app, "zeta", "1", false);
    set_var(&mut app, "api_key", "abcdefghijk", true);
    set_var(&mut app, "Alpha", "short", true);
    assert_eq!(
        app.variable_lines(),
        vec![
            "Alpha = ********".to_string(),
            "api_key = abc...ijk".to_string(),
            "zeta = 1".to_string(),
        ]
    );
}

#[test]
fn preview_is_the_copied_command_without_secrets() {
    let mut app = App::new();
    app.url_input = lines(&["{{host}}/x"]);
    app.headers_input = lines(&["X-Name: {{who}}"]);
    set_var(&mut app, "host", "example.org", false);
    set_var(&mut app, "who", "somebody-long", false);
    match app.copy_curl() {
        Action::Copy(t) => assert_eq!(t, app.safe_curl_preview()),
        _ => panic!("expected a copy"),
    }
}

#[test]
fn pane_moves_undo_each_other() {
    let mut app = App::new();
    for _ in 0..6 {
        let start = app.active_pane;
        app.next_pane();
        app.prev_pane();
        assert_eq!(app.active_pane, start);
        app.next_pane();
    }
}
