use agent_bridge::codec::{
    decode_request_bytes, decode_response, encode_request, AgentRequest, AgentResponse,
};

fn req(
    id: &str,
    kind: &str,
    message: Option<&str>,
    images: Option<&str>,
    conversation_id: Option<&str>,
) -> AgentRequest {
    AgentRequest {
        id: id.to_string(),
        kind: kind.to_string(),
        message: message.map(|s| s.to_string()),
        images: images.map(|s| s.to_string()),
        conversation_id: conversation_id.map(|s| s.to_string()),
    }
}

#[test]
fn encode_exact_wire_form() {
    let r = req("42", "user_message", Some("hello"), None, None);
    let line = encode_request(&r);
    assert_eq!(
        String::from_utf8(line).unwrap(),
        "{\"id\":\"42\",\"kind\":\"user_message\",\"message\":\"hello\"}"
    );
}

#[test]
fn encode_omits_absent_fields() {
    let r = req("a", "interrupt", None, None, None);
    assert_eq!(String::from_utf8(encode_request(&r)).unwrap(), "{\"id\":\"a\",\"kind\":\"interrupt\"}");
    let r = req("a", "load_conversation", None, None, Some("c-1"));
    assert_eq!(
        String::from_utf8(encode_request(&r)).unwrap(),
        "{\"id\":\"a\",\"kind\":\"load_conversation\",\"conversation_id\":\"c-1\"}"
    );
}

#[test]
fn encode_escapes_specials() {
    let r = req("x", "user_message", Some("a\"b\\c\nd\te\r"), None, None);
    let line = String::from_utf8(encode_request(&r)).unwrap();
    assert_eq!(
        line,
        "{\"id\":\"x\",\"kind\":\"user_message\",\"message\":\"a\\\"b\\\\c\\nd\\te\\r\"}"
    );
}

#[test]
fn encode_escapes_control_bytes_as_unicode() {
    let r = req("x", "k", Some("a\u{01}b"), None, None);
    let line = String::from_utf8(encode_request(&r)).unwrap();
    assert!(line.contains("\\u0001"));
}

#[test]
fn encoded_request_is_valid_json_for_serde() {
    let r = req("42", "user_message", Some("he said \"hi\"\nand left"), Some("[]"), Some("c-9"));
    let line = String::from_utf8(encode_request(&r)).unwrap();
    let v: serde_json::Value = serde_json::from_str(&line).expect("well-formed JSON");
    assert_eq!(v["id"].as_str(), Some("42"));
    assert_eq!(v["kind"].as_str(), Some("user_message"));
    assert_eq!(v["message"].as_str(), Some("he said \"hi\"\nand left"));
    assert_eq!(v["images"].as_str(), Some("[]"));
    assert_eq!(v["conversation_id"].as_str(), Some("c-9"));
}

#[test]
fn round_trip_recovers_fields() {
    let cases = vec![
        req("42", "user_message", Some("hello"), None, None),
        req("", "", None, None, None),
        req("id-1", "k", Some("quote \" backslash \\ tab \t"), Some("imgs"), Some("conv")),
        req("u", "k", Some("Grüße, 世界, émoji"), None, Some("ünïcode")),
        req("n", "k", Some("line\nbreak\rand\u{0}nul"), None, None),
    ];
    for r in cases {
        let line = encode_request(&r);
        let back = decode_request_bytes(&line).expect("decodes");
        assert_eq!(back, r);
    }
}

#[test]
fn round_trip_keeps_absent_fields_absent() {
    let r = req("1", "clear_history", None, None, None);
    let back = decode_request_bytes(&encode_request(&r)).unwrap();
    assert!(back.message.is_none());
    assert!(back.images.is_none());
    assert!(back.conversation_id.is_none());
}

#[test]
fn decode_ready() {
    let r = decode_response("{\"type\":\"ready\",\"timestamp\":1712000000000}");
    assert_eq!(r, Some(AgentResponse::Ready { timestamp: 1712000000000 }));
}

#[test]
fn decode_token() {
    let r = decode_response("{\"type\":\"token\",\"id\":\"42\",\"token\":\"he\",\"timestamp\":5}");
    assert_eq!(
        r,
        Some(AgentResponse::Token { id: "42".to_string(), token: "he".to_string(), timestamp: 5 })
    );
}

#[test]
fn decode_token_with_escapes() {
    let r = decode_response(
        "{\"type\":\"token\",\"id\":\"a\",\"token\":\"x\\ny \\\"q\\\" \\u0041\",\"timestamp\":0}",
    );
    assert_eq!(
        r,
        Some(AgentResponse::Token {
            id: "a".to_string(),
            token: "x\ny \"q\" A".to_string(),
            timestamp: 0
        })
    );
}

#[test]
fn decode_tool_use_keeps_raw_data() {
    let r = decode_response(
        "{\"type\":\"tool_use\",\"id\":\"7\",\"data\":{\"a\":[1,2,{\"b\":null}]},\"timestamp\":9}",
    );
    assert_eq!(
        r,
        Some(AgentResponse::ToolUse {
            id: "7".to_string(),
            data: "{\"a\":[1,2,{\"b\":null}]}".to_string(),
            timestamp: 9
        })
    );
}

#[test]
fn decode_tool_result() {
    let r = decode_response("{\"type\":\"tool_result\",\"id\":\"7\",\"data\":\"ok\",\"timestamp\":9}");
    assert_eq!(
        r,
        Some(AgentResponse::ToolResult {
            id: "7".to_string(),
            data: "\"ok\"".to_string(),
            timestamp: 9
        })
    );
}

#[test]
fn decode_done_with_and_without_data() {
    let with = decode_response("{\"type\":\"done\",\"id\":\"42\",\"data\":[true,false],\"timestamp\":3}");
    assert_eq!(
        with,
        Some(AgentResponse::Done {
            id: "42".to_string(),
            data: Some("[true,false]".to_string()),
            timestamp: 3
        })
    );
    let without = decode_response("{\"type\":\"done\",\"id\":\"42\",\"timestamp\":3}");
    assert_eq!(
        without,
        Some(AgentResponse::Done { id: "42".to_string(), data: None, timestamp: 3 })
    );
}

#[test]
fn decode_error_variant() {
    let r = decode_response("{\"type\":\"error\",\"id\":\"9\",\"error\":\"boom\",\"timestamp\":-4}");
    assert_eq!(
        r,
        Some(AgentResponse::Error { id: "9".to_string(), error: "boom".to_string(), timestamp: -4 })
    );
}

#[test]
fn decode_tolerates_whitespace_and_extra_fields() {
    let r = decode_response(
        " { \"type\" : \"ready\" , \"extra\" : {\"x\": [1, 2.5, \"y\"]} , \"timestamp\" : 1 } ",
    );
    assert_eq!(r, Some(AgentResponse::Ready { timestamp: 1 }));
}

#[test]
fn decode_rejects_plain_text() {
    assert_eq!(decode_response("not json at all"), None);
    assert_eq!(decode_response("[INFO] starting up"), None);
    assert_eq!(decode_response(""), None);
}

#[test]
fn decode_rejects_wrong_shapes() {
    // unknown tag
    assert_eq!(decode_response("{\"type\":\"bogus\",\"timestamp\":1}"), None);
    // missing timestamp
    assert_eq!(decode_response("{\"type\":\"ready\"}"), None);
    // timestamp not an integer
    assert_eq!(decode_response("{\"type\":\"ready\",\"timestamp\":1.5}"), None);
    assert_eq!(decode_response("{\"type\":\"ready\",\"timestamp\":\"1\"}"), None);
    // tag not a string
    assert_eq!(decode_response("{\"type\":3,\"timestamp\":1}"), None);
    // missing required field
    assert_eq!(decode_response("{\"type\":\"token\",\"id\":\"42\",\"timestamp\":5}"), None);
    // not an object
    assert_eq!(decode_response("[\"type\",\"ready\"]"), None);
    // trailing junk
    assert_eq!(decode_response("{\"type\":\"ready\",\"timestamp\":1}x"), None);
    // truncated
    assert_eq!(decode_response("{\"type\":\"ready\",\"timestamp\":1"), None);
}

#[test]
fn decode_timestamp_bounds() {
    let max = decode_response("{\"type\":\"ready\",\"timestamp\":9223372036854775807}");
    assert_eq!(max, Some(AgentResponse::Ready { timestamp: i64::MAX }));
    let min = decode_response("{\"type\":\"ready\",\"timestamp\":-9223372036854775808}");
    assert_eq!(min, Some(AgentResponse::Ready { timestamp: i64::MIN }));
    // one past the range is no longer an integer field
    assert_eq!(decode_response("{\"type\":\"ready\",\"timestamp\":9223372036854775808}"), None);
}

#[test]
fn decode_matches_serde_generated_lines() {
    // lines rewritten by serde_json, as the child would write them
    let v: serde_json::Value = serde_json::from_str(
        "{\"type\": \"token\", \"id\": \"a1\", \"token\": \" x \", \"timestamp\": 77}",
    )
    .unwrap();
    let line = serde_json::to_string(&v).unwrap();
    assert_eq!(
        decode_response(&line),
        Some(AgentResponse::Token { id: "a1".to_string(), token: " x ".to_string(), timestamp: 77 })
    );
    let v: serde_json::Value = serde_json::from_str(
        "{\"type\": \"error\", \"id\": \"e\", \"error\": \"ünïcode ✗\", \"timestamp\": 0}",
    )
    .unwrap();
    let line = serde_json::to_string(&v).unwrap();
    assert_eq!(
        decode_response(&line),
        Some(AgentResponse::Error {
            id: "e".to_string(),
            error: "ünïcode ✗".to_string(),
            timestamp: 0
        })
    );
}

#[test]
fn decode_accepts_raw_utf8_but_only_ascii_unicode_escapes() {
    // raw multi-byte text passes through
    let r = decode_response("{\"type\":\"error\",\"id\":\"i\",\"error\":\"café\",\"timestamp\":1}");
    assert_eq!(
        r,
        Some(AgentResponse::Error { id: "i".to_string(), error: "café".to_string(), timestamp: 1 })
    );
    // a unicode escape beyond the ASCII range is outside the codec's
    // grammar: the line is no response and falls back to a log line
    assert_eq!(
        decode_response("{\"type\":\"error\",\"id\":\"i\",\"error\":\"caf\\u00e9\",\"timestamp\":1}"),
        None
    );
    // an ASCII unicode escape is fine
    let r = decode_response("{\"type\":\"error\",\"id\":\"i\",\"error\":\"\\u0021\",\"timestamp\":1}");
    assert_eq!(
        r,
        Some(AgentResponse::Error { id: "i".to_string(), error: "!".to_string(), timestamp: 1 })
    );
}

#[test]
fn decode_rejects_malformed_numbers_and_strings() {
    // leading zero is not a JSON number
    assert_eq!(decode_response("{\"type\":\"ready\",\"timestamp\":01}"), None);
    // a raw control byte inside a string is not JSON
    assert_eq!(decode_response("{\"type\":\"error\",\"id\":\"a\u{01}b\",\"error\":\"e\",\"timestamp\":1}"), None);
    // an unterminated string
    assert_eq!(decode_response("{\"type\":\"ready\",\"timestamp\":1,\"x\":\"oops}"), None);
}

#[test]
fn decode_handles_nested_data_values() {
    let line = "{\"type\":\"done\",\"id\":\"d\",\"data\":{\"a\":{\"b\":[[],{},\"s\",-1.5e3,true,null]}},\"timestamp\":8}";
    let r = decode_response(line);
    assert_eq!(
        r,
        Some(AgentResponse::Done {
            id: "d".to_string(),
            data: Some("{\"a\":{\"b\":[[],{},\"s\",-1.5e3,true,null]}}".to_string()),
            timestamp: 8
        })
    );
}

#[test]
fn decode_duplicate_key_first_wins() {
    let r = decode_response("{\"type\":\"ready\",\"timestamp\":1,\"timestamp\":2}");
    assert_eq!(r, Some(AgentResponse::Ready { timestamp: 1 }));
}
