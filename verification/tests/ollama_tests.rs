use pdf_scrub::ollama::{build_request, interpret_reply, page_request_body, parse_response, OllamaReply, PROMPT};

#[test]
fn parse_response_extracts_response_field() {
    let json = r#"{"model":"mistral","response":"Page content here.","done":true}"#;
    assert_eq!(parse_response(json).unwrap(), "Page content here.");
}

#[test]
fn parse_response_returns_error_on_missing_field() {
    let json = r#"{"model":"mistral","done":true}"#;
    assert!(parse_response(json).is_err());
}

#[test]
fn parse_response_returns_error_on_invalid_json() {
    assert!(parse_response("not json").is_err());
}

#[test]
fn parse_response_reports_ollama_error() {
    let json = r#"{"error":"model not found","response":"ignored"}"#;
    assert_eq!(parse_response(json), Err("ollama error: model not found".to_string()));
}

#[test]
fn parse_response_ignores_non_string_response() {
    assert_eq!(parse_response(r#"{"response":5}"#), Err("invalid response".to_string()));
    assert_eq!(parse_response("[1,2]"), Err("invalid response".to_string()));
}

#[test]
fn interpret_reply_decides_by_fields() {
    assert_eq!(interpret_reply(None), Err("invalid response".to_string()));
    let ok = OllamaReply { error: None, response: Some("text".to_string()) };
    assert_eq!(interpret_reply(Some(ok)), Ok("text".to_string()));
    let err = OllamaReply { error: Some("boom".to_string()), response: Some("text".to_string()) };
    assert_eq!(interpret_reply(Some(err)), Err("ollama error: boom".to_string()));
    let none = OllamaReply { error: None, response: None };
    assert_eq!(interpret_reply(Some(none)), Err("invalid response".to_string()));
}

#[test]
fn build_request_contains_model() {
    let body = build_request("abc123", "mistral-small3.2:24b");
    let v: serde_json::Value = serde_json::from_str(&body).unwrap();
    assert_eq!(v["model"], "mistral-small3.2:24b");
}

#[test]
fn build_request_contains_image() {
    let body = build_request("abc123", "mistral-small3.2:24b");
    let v: serde_json::Value = serde_json::from_str(&body).unwrap();
    assert_eq!(v["images"][0], "abc123");
}

#[test]
fn build_request_is_not_streaming() {
    let body = build_request("abc123", "mistral-small3.2:24b");
    let v: serde_json::Value = serde_json::from_str(&body).unwrap();
    assert_eq!(v["stream"], false);
}

#[test]
fn build_request_contains_prompt() {
    let body = build_request("abc123", "mistral-small3.2:24b");
    let v: serde_json::Value = serde_json::from_str(&body).unwrap();
    assert_eq!(v["prompt"], PROMPT);
}

#[test]
fn prompt_asks_for_name_tags() {
    assert_eq!(
        PROMPT,
        "Extract the text from this document page as Markdown. Mark every person name you find with the tag [NAME: Firstname Lastname]. Do not substitute or remove anything else. Preserve all other content exactly."
    );
}

#[test]
fn build_request_is_exact_compact_json() {
    let body = build_request("abc123", "m");
    assert_eq!(
        body,
        format!(
            "{{\"images\":[\"abc123\"],\"model\":\"m\",\"prompt\":{},\"stream\":false}}",
            serde_json::to_string(PROMPT).unwrap()
        )
    );
}

#[test]
fn build_request_escapes_strings() {
    let body = build_request("a", "q\"b\\s\n\u{1}é");
    assert!(body.contains(r#""model":"q\"b\\s\n\u0001é""#));
    let v: serde_json::Value = serde_json::from_str(&body).unwrap();
    assert_eq!(v["model"], "q\"b\\s\n\u{1}é");
}

#[test]
fn page_request_body_encodes_image_in_base64() {
    let body = page_request_body(b"Man", "m");
    let v: serde_json::Value = serde_json::from_str(&body).unwrap();
    assert_eq!(v["images"][0], "TWFu");
    let body = page_request_body(&[0xff, 0xfe], "m");
    let v: serde_json::Value = serde_json::from_str(&body).unwrap();
    assert_eq!(v["images"][0], "//4=");
    let body = page_request_body(&[0x00], "m");
    let v: serde_json::Value = serde_json::from_str(&body).unwrap();
    assert_eq!(v["images"][0], "AA==");
}
