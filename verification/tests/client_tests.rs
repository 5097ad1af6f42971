//! Response classification, header parsing, request rendering, and error
//! rendering.

use tts_player::client::{build_speech_request, classify_response, parse_u64_dec};
use tts_player::error::{u64_to_string, TTSError};

#[test]
fn success_hands_the_body_back_unchanged() {
    let body = vec![0x49u8, 0x44, 0x33];
    let r = classify_response(200, None, body.clone(), String::new());
    assert_eq!(r.unwrap(), body);
}

#[test]
fn unauthorized_is_an_authentication_error_with_the_body_text() {
    let r = classify_response(401, None, Vec::new(), "Missing API key".to_string());
    match r.unwrap_err() {
        TTSError::Authentication(msg) => assert_eq!(msg, "Missing API key".to_string()),
        _ => panic!("401 must map to an authentication error"),
    }
}

#[test]
fn throttling_carries_the_parsed_retry_after() {
    let r = classify_response(429, Some("60".to_string()), Vec::new(), String::new());
    match r.unwrap_err() {
        TTSError::RateLimit(secs) => assert_eq!(secs, Some(60)),
        _ => panic!("429 must map to a rate limit"),
    }
}

#[test]
fn an_unreadable_retry_after_is_dropped() {
    let r = classify_response(429, Some("soon".to_string()), Vec::new(), String::new());
    match r.unwrap_err() {
        TTSError::RateLimit(secs) => assert_eq!(secs, None),
        _ => panic!("429 must map to a rate limit"),
    }
}

#[test]
fn other_statuses_keep_status_and_body() {
    let r = classify_response(500, None, Vec::new(), "Internal server error".to_string());
    match r.unwrap_err() {
        TTSError::UnknownError(status, body) => {
            assert_eq!(status, 500);
            assert_eq!(body, "Internal server error".to_string());
        }
        _ => panic!("500 must map to an unknown error"),
    }
}

#[test]
fn retry_after_parsing_accepts_digit_strings_only() {
    assert_eq!(parse_u64_dec("0"), Some(0));
    assert_eq!(parse_u64_dec("60"), Some(60));
    assert_eq!(parse_u64_dec("18446744073709551615"), Some(u64::MAX));
    assert_eq!(parse_u64_dec("18446744073709551616"), None);
    assert_eq!(parse_u64_dec(""), None);
    assert_eq!(parse_u64_dec("12a"), None);
    assert_eq!(parse_u64_dec("-5"), None);
    assert_eq!(parse_u64_dec(" 5"), None);
}

#[test]
fn request_body_is_rendered_with_json_escaping() {
    let body = build_speech_request("tts-1-hd", "Say \"hi\",\nplease", "alloy");
    assert_eq!(
        body,
        "{\"model\":\"tts-1-hd\",\"input\":\"Say \\\"hi\\\",\\nplease\",\"voice\":\"alloy\",\"response_format\":\"mp3\"}"
            .to_string()
    );
}

#[test]
fn numbers_render_in_decimal() {
    assert_eq!(u64_to_string(0), "0".to_string());
    assert_eq!(u64_to_string(7), "7".to_string());
    assert_eq!(u64_to_string(12345), "12345".to_string());
    assert_eq!(u64_to_string(u64::MAX), "18446744073709551615".to_string());
}

#[test]
fn each_error_kind_renders_its_own_message() {
    assert_eq!(
        TTSError::Authentication("no key".to_string()).describe(),
        "Authentication error: no key".to_string()
    );
    assert_eq!(
        TTSError::RateLimit(Some(60)).describe(),
        "Rate limit exceeded. Retry after 60 seconds".to_string()
    );
    assert_eq!(
        TTSError::RateLimit(None).describe(),
        "Rate limit exceeded".to_string()
    );
    assert_eq!(
        TTSError::ValidationError("Text cannot be empty".to_string()).describe(),
        "Validation error: Text cannot be empty".to_string()
    );
    assert_eq!(
        TTSError::NetworkError("timeout".to_string()).describe(),
        "Network error: timeout".to_string()
    );
    assert_eq!(
        TTSError::UnknownError(503, "busy".to_string()).describe(),
        "Unknown error: HTTP 503: busy".to_string()
    );
}
