use qurli::auth::normalize_auth_header;
use qurli::request::{
    error_response, normalize_url, parse_headers, prepare_request, response_from_reply,
    Method, RequestInput,
};
use reqwest::header::{HeaderValue, AUTHORIZATION, CONTENT_TYPE};

#[test]
fn parses_valid_headers() {
    let headers = parse_headers("Content-Type: application/json\nX-Trace: abc").unwrap();
    assert_eq!(headers[CONTENT_TYPE], "application/json");
    assert_eq!(headers["x-trace"], "abc");
}

#[test]
fn rejects_invalid_header_lines() {
    let err = parse_headers("Missing colon").unwrap_err();
    assert!(err.contains("missing ':'"));
}

#[test]
fn normalizes_urls() {
    assert_eq!(normalize_url("example.com"), "https://example.com");
    assert_eq!(normalize_url("http://localhost"), "http://localhost");
    assert_eq!(normalize_url(""), "http://localhost");
}

#[test]
fn inserts_authorization_header() {
    let mut headers = parse_headers("").unwrap();
    let auth = normalize_auth_header("abc123").unwrap();
    headers.insert(AUTHORIZATION, HeaderValue::from_str(&auth).unwrap());
    assert_eq!(headers[AUTHORIZATION], "Bearer abc123");
}

#[test]
fn header_errors_name_the_line() {
    assert_eq!(
        parse_headers("\nA: 1\nno colon").unwrap_err(),
        "Header line 3 is missing ':'"
    );
    assert_eq!(
        parse_headers("Bad Name: 1").unwrap_err(),
        "Invalid header name on line 1: invalid HTTP header name"
    );
    assert_eq!(
        parse_headers("X: a\u{1}b").unwrap_err(),
        "Invalid header value on line 1: failed to parse header value"
    );
}

#[test]
fn later_header_replaces_earlier_one() {
    let headers = parse_headers("X-A: 1\nx-a: 2\n\n  ").unwrap();
    assert_eq!(headers.len(), 1);
    assert_eq!(headers["x-a"], "2");
}

#[test]
fn method_names() {
    assert_eq!(Method::Get.to_string(), "GET");
    assert_eq!(Method::Post.to_string(), "POST");
    assert_eq!(Method::Put.to_string(), "PUT");
    assert_eq!(Method::Patch.to_string(), "PATCH");
    assert_eq!(Method::Delete.to_string(), "DELETE");
}

#[test]
fn prepares_request_with_auth_and_body() {
    let input = RequestInput::new(
        Method::Put,
        "api.test/x".to_string(),
        "Accept: text/plain".to_string(),
        "payload".to_string(),
        "tok".to_string(),
    );
    let plan = prepare_request(&input).unwrap();
    assert_eq!(plan.url, "https://api.test/x");
    assert_eq!(plan.headers["accept"], "text/plain");
    assert_eq!(plan.headers[AUTHORIZATION], "Bearer tok");
    assert_eq!(plan.body, Some("payload".to_string()));
}

#[test]
fn prepare_rejects_bad_auth_and_drops_blank_body() {
    let input = RequestInput::new(
        Method::Get,
        "x".to_string(),
        "".to_string(),
        " \n ".to_string(),
        "a\u{7f}b".to_string(),
    );
    assert_eq!(
        prepare_request(&input).err().unwrap(),
        "Invalid Authorization header: failed to parse header value"
    );
    let input = RequestInput::new(
        Method::Get,
        "x".to_string(),
        "".to_string(),
        " \n ".to_string(),
        "".to_string(),
    );
    let plan = prepare_request(&input).ok().unwrap();
    assert_eq!(plan.body, None);
    assert_eq!(plan.headers.len(), 0);
}

#[test]
fn json_replies_are_pretty_printed() {
    let res = response_from_reply(
        200,
        "200 OK".to_string(),
        5,
        vec![("CONTENT-TYPE".to_string(), "application/json; charset=utf-8".to_string())],
        r#"{"a":1}"#.to_string(),
    );
    assert_eq!(res.body, "{\n  \"a\": 1\n}");
    let res = response_from_reply(
        200,
        "200 OK".to_string(),
        5,
        vec![("content-type".to_string(), "text/plain".to_string())],
        r#"{"a":1}"#.to_string(),
    );
    assert_eq!(res.body, r#"{"a":1}"#);
}

#[test]
fn error_response_shape() {
    let res = error_response(std::time::Instant::now(), "boom".to_string());
    assert_eq!(res.status, 0);
    assert_eq!(res.status_text, "Error: boom");
    assert!(res.headers.is_empty());
    assert!(res.body.is_empty());
}

#[test]
fn normalizing_twice_is_normalizing_once() {
    for url in ["", "  ", " a.b ", "http://x", "https://y ", "ftp://z"] {
        let once = normalize_url(url);
        assert_eq!(normalize_url(&once), once);
    }
}

#[test]
fn many_distinct_headers_fill_the_map_without_panicking() {
    let text: String = (0..30000).map(|i| format!("x-h{}: v\n", i)).collect();
    let r = parse_headers(&text);
    assert_eq!(r.unwrap_err(), "Too many headers: max size reached");
    let few: String = (0..100).map(|i| format!("x-h{}: v\n", i)).collect();
    assert_eq!(parse_headers(&few).unwrap().len(), 100);
}
