use codex_mem9::mem9::{
    api_key_header_error, is_success_status, rejection_detail, rejection_message, store_endpoint,
};

#[test]
fn store_endpoint_trims_trailing_slashes() {
    assert_eq!(
        store_endpoint("https://api.mem9.ai"),
        "https://api.mem9.ai/v1alpha2/mem9s/memories"
    );
    assert_eq!(
        store_endpoint("https://api.mem9.ai///"),
        "https://api.mem9.ai/v1alpha2/mem9s/memories"
    );
    assert_eq!(store_endpoint(""), "/v1alpha2/mem9s/memories");
}

#[test]
fn success_statuses_are_2xx() {
    assert!(is_success_status(200));
    assert!(is_success_status(202));
    assert!(is_success_status(299));
    assert!(!is_success_status(199));
    assert!(!is_success_status(300));
    assert!(!is_success_status(403));
    assert!(!is_success_status(500));
}

#[test]
fn rejection_detail_trims_the_body() {
    assert_eq!(
        rejection_detail("  forbidden by upstream \n"),
        Some("forbidden by upstream".to_string())
    );
    assert_eq!(rejection_detail(" \n\t"), None);
    assert_eq!(rejection_detail(""), None);
}

#[test]
fn rejection_message_names_status_and_body() {
    let message = rejection_message("403 Forbidden", "forbidden by upstream\n");
    assert_eq!(
        message,
        "Mem9 store returned a non-success status: HTTP status 403 Forbidden; response body: forbidden by upstream"
    );
    assert!(message.contains("403"));
    assert!(message.contains("forbidden by upstream"));
    assert_eq!(
        rejection_message("500 Internal Server Error", "   "),
        "Mem9 store returned a non-success status: HTTP status 500 Internal Server Error"
    );
}

#[test]
fn api_key_must_be_a_header_value() {
    assert_eq!(api_key_header_error("api-key"), None);
    assert_eq!(api_key_header_error("a b\tc"), None);
    assert_eq!(api_key_header_error("cl\u{e9}"), None);
    assert_eq!(api_key_header_error(""), None);
    assert_eq!(api_key_header_error("bad\nkey"), Some("invalid MEM9 API key".to_string()));
    assert_eq!(api_key_header_error("del\u{7f}"), Some("invalid MEM9 API key".to_string()));
}
