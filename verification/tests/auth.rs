use qurli::auth::{is_secret_name, mask_secret, normalize_auth_header};

#[test]
fn normalizes_auth_values() {
    assert_eq!(
        normalize_auth_header("abc123"),
        Some("Bearer abc123".to_string())
    );
    assert_eq!(
        normalize_auth_header("Bearer abc123"),
        Some("Bearer abc123".to_string())
    );
    assert_eq!(normalize_auth_header("  "), None);
}

#[test]
fn detects_and_masks_secret_names() {
    assert!(is_secret_name("access_token"));
    assert!(is_secret_name("API_KEY"));
    assert!(!is_secret_name("user_id"));
    assert_eq!(mask_secret("abc123xyz"), "abc...xyz");
    assert_eq!(mask_secret("short"), "********");
}

#[test]
fn keeps_basic_scheme_in_any_case_and_trims() {
    assert_eq!(
        normalize_auth_header("  basic dXNlcjpwYXNz  "),
        Some("basic dXNlcjpwYXNz".to_string())
    );
    assert_eq!(
        normalize_auth_header("BEARER tok"),
        Some("BEARER tok".to_string())
    );
    assert_eq!(
        normalize_auth_header("Basicfoo"),
        Some("Bearer Basicfoo".to_string())
    );
}

#[test]
fn secret_names_go_by_lowercase_markers() {
    assert!(is_secret_name("X-Refresh-TOKEN"));
    assert!(is_secret_name("Authorization"));
    assert!(is_secret_name("db_password"));
    assert!(!is_secret_name("name"));
    assert!(!is_secret_name(""));
}

#[test]
fn masks_by_length() {
    assert_eq!(mask_secret(""), "");
    assert_eq!(mask_secret("a"), "********");
    assert_eq!(mask_secret("12345678"), "********");
    assert_eq!(mask_secret("123456789"), "123...789");
    assert_eq!(mask_secret("äöüßéèàç9"), "äöü...àç9");
}

#[test]
fn normalizing_a_normalized_value_gives_it_back() {
    for field in ["abc", "  Bearer x ", "basic y", "tok en", "BEARERX"] {
        let v = normalize_auth_header(field).unwrap();
        assert_eq!(normalize_auth_header(&v), Some(v.clone()));
    }
}

#[test]
fn secret_names_stay_secret_inside_longer_names() {
    for s in ["token", "API_KEY", "Password"] {
        assert!(is_secret_name(s));
        assert!(is_secret_name(&format!("x-{s}-1")));
    }
}
