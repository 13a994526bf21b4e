use qurli::curl::generate_curl;
use qurli::request::{Method, RequestInput};

#[test]
fn generates_curl_command() {
    let input = RequestInput::new(
        Method::Post,
        "https://api.example.com/login".to_string(),
        "Content-Type: application/json".to_string(),
        r#"{"username":"aniket"}"#.to_string(),
        "abc123".to_string(),
    );

    let curl = generate_curl(&input);
    assert!(curl.contains("curl -X POST 'https://api.example.com/login'"));
    assert!(curl.contains("-H 'Content-Type: application/json'"));
    assert!(curl.contains("-H 'Authorization: Bearer abc123'"));
    assert!(curl.contains(r#"-d '{"username":"aniket"}'"#));
}

#[test]
fn curl_command_exact_text() {
    let input = RequestInput::new(
        Method::Get,
        "  example.com/it's ".to_string(),
        "A : 1\nno colon here\r\nB:2".to_string(),
        "   ".to_string(),
        "".to_string(),
    );
    assert_eq!(
        generate_curl(&input),
        "curl -X GET 'https://example.com/it'\\''s' \\\n  -H 'A: 1' \\\n  -H 'B: 2'"
    );
}

#[test]
fn curl_for_blank_url_uses_localhost() {
    let input = RequestInput::new(
        Method::Delete,
        "".to_string(),
        "".to_string(),
        "x".to_string(),
        "Basic abc".to_string(),
    );
    assert_eq!(
        generate_curl(&input),
        "curl -X DELETE 'http://localhost' \\\n  -H 'Authorization: Basic abc' \\\n  -d 'x'"
    );
}

#[test]
fn curl_of_a_normalized_url_is_the_same() {
    let make = |url: &str| {
        RequestInput::new(
            Method::Get,
            url.to_string(),
            "".to_string(),
            "".to_string(),
            "".to_string(),
        )
    };
    assert_eq!(generate_curl(&make("  api.x/y ")), generate_curl(&make("https://api.x/y")));
    assert_eq!(generate_curl(&make("")), "curl -X GET 'http://localhost'");
}
