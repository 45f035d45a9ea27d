use symmetrix::http_request::empty_upload_reply;
use symmetrix::http_request::{route_request, HttpRoute, PathCommand};
use symmetrix::http_request::{
    extract_content_length, http_ok_response, is_websocket_upgrade, request_body, request_path,
    request_read_complete, websocket_key,
};

#[test]
fn path_is_the_second_word_of_the_request_line() {
    assert_eq!(request_path("GET /v1/health HTTP/1.1\r\nHost: x\r\n\r\n"), "/v1/health");
    assert_eq!(request_path("POST   /v1/index/upload\tHTTP/1.1"), "/v1/index/upload");
    assert_eq!(request_path("  GET /ws"), "/ws");
}

#[test]
fn path_defaults_to_root() {
    assert_eq!(request_path(""), "/");
    assert_eq!(request_path("GET"), "/");
    assert_eq!(request_path("GET\r\n/elsewhere HTTP/1.1"), "/");
    assert_eq!(request_path("\nGET /x HTTP/1.1"), "/");
}

#[test]
fn body_is_the_text_after_the_blank_line() {
    assert_eq!(request_body("POST /v1/predict HTTP/1.1\r\nHost: x\r\n\r\n{\"a\":1}"), "{\"a\":1}");
    assert_eq!(request_body("GET / HTTP/1.1\r\nHost: x\r\n\r\n"), "");
    assert_eq!(request_body("GET / HTTP/1.1\r\nHost: x"), "");
    assert_eq!(request_body("h\r\n\r\nfirst\r\n\r\nsecond"), "first");
}

#[test]
fn content_length_is_read_from_its_header() {
    assert_eq!(extract_content_length("POST / HTTP/1.1\r\nContent-Length: 42\r\n\r\n"), Some(42));
    assert_eq!(extract_content_length("POST / HTTP/1.1\r\ncontent-LENGTH:7\r\n"), Some(7));
    assert_eq!(extract_content_length("Content-Length: +15"), Some(15));
    assert_eq!(extract_content_length("Content-Length: 12:34"), Some(12));
    assert_eq!(extract_content_length("Content-Length:\t 0 \r\n"), Some(0));
}

#[test]
fn content_length_missing_or_unreadable() {
    assert_eq!(extract_content_length("GET / HTTP/1.1\r\nHost: x\r\n\r\n"), None);
    assert_eq!(extract_content_length("Content-Length: abc\r\n"), None);
    assert_eq!(extract_content_length("Content-Length: -1\r\n"), None);
    assert_eq!(extract_content_length("Content-Length: +\r\n"), None);
    assert_eq!(extract_content_length("Content-Length: \r\n"), None);
    assert_eq!(extract_content_length("Content-Length: 99999999999999999999999\r\n"), None);
    // the first line with the name decides
    assert_eq!(extract_content_length("Content-Length: x\r\nContent-Length: 5\r\n"), None);
    // the name must start the line
    assert_eq!(extract_content_length("X-Content-Length: 5\r\n"), None);
}

#[test]
fn content_length_agrees_with_std_parsing() {
    for value in ["1", "0042", "+3", "18446744073709551615", "18446744073709551616", "1 2", "٣"] {
        let request = format!("POST / HTTP/1.1\r\nContent-Length: {}\r\n\r\n", value);
        let expected = value.trim().parse::<usize>().ok();
        assert_eq!(extract_content_length(&request), expected, "value {:?}", value);
    }
}

#[test]
fn websocket_key_is_trimmed_value() {
    let request = "GET /ws HTTP/1.1\r\nUpgrade: websocket\r\nSec-WebSocket-Key: dGhlIHNhbXBsZSBub25jZQ==\r\n\r\n";
    assert_eq!(websocket_key(request), Some("dGhlIHNhbXBsZSBub25jZQ==".to_string()));
    assert_eq!(websocket_key("GET /ws HTTP/1.1\r\n\r\n"), None);
}

#[test]
fn websocket_upgrade_needs_both_headers() {
    let upgrade = "GET /ws HTTP/1.1\r\nUpgrade: WebSocket\r\nConnection: Upgrade\r\n\r\n";
    assert!(is_websocket_upgrade(upgrade));
    assert!(!is_websocket_upgrade("GET /ws HTTP/1.1\r\nUpgrade: websocket\r\n\r\n"));
    assert!(!is_websocket_upgrade("GET / HTTP/1.1\r\nConnection: upgrade\r\n\r\n"));
    assert!(!is_websocket_upgrade(""));
}

#[test]
fn websocket_upgrade_matches_std_lowercase() {
    // The Kelvin sign lower-cases to 'k'.
    let kelvin = "Upgrade: websoc\u{212A}et\r\nConnection: upgrade\r\n";
    let lower = kelvin.to_lowercase();
    assert!(lower.contains("upgrade: websocket"));
    assert!(is_websocket_upgrade(kelvin));
    // A dotted capital I lower-cases to two characters and matches nothing.
    let dotted = "Upgrade: websocket\r\nConnect\u{130}on: upgrade\r\n";
    assert!(!dotted.to_lowercase().contains("connection: upgrade"));
    assert!(!is_websocket_upgrade(dotted));
}

#[test]
fn request_with_length_is_complete_once_body_arrived() {
    let head = "POST /v1/index/upload HTTP/1.1\r\nContent-Length: 5\r\n\r\n";
    let partial = format!("{}abc", head);
    assert!(!request_read_complete(&partial, partial.len(), 1024));
    let full = format!("{}abcde", head);
    assert!(request_read_complete(&full, full.len(), 1024));
    // a full buffer ends the read in any case
    assert!(request_read_complete(&partial, 1024, 1024));
}

#[test]
fn request_without_length_is_complete_at_blank_line() {
    assert!(request_read_complete("GET / HTTP/1.1\r\n\r\n", 18, 1024));
    assert!(!request_read_complete("GET / HTTP/1.1\r\nHost: x", 23, 1024));
    // an unreadable length, yet the name is there: wait for more
    let odd = "POST / HTTP/1.1\r\nContent-Length: many\r\n\r\n";
    assert!(!request_read_complete(odd, odd.len(), 1024));
}

#[test]
fn reply_carries_the_body_length_in_bytes() {
    assert_eq!(
        http_ok_response("{}"),
        "HTTP/1.1 200 OK\r\nContent-Type: application/json\r\nAccess-Control-Allow-Origin: *\r\nContent-Length: 2\r\n\r\n{}"
    );
    let body = "{\"name\":\"é\"}";
    let reply = http_ok_response(body);
    assert!(reply.ends_with(&format!("Content-Length: {}\r\n\r\n{}", body.len(), body)));
    assert_eq!(body.len(), 13);
}

#[test]
fn routes_of_requests() {
    assert_eq!(route_request("GET /ws HTTP/1.1\r\n\r\n"), HttpRoute::WebSocketInfo);
    assert_eq!(route_request("GET /websocket HTTP/1.1\r\n\r\n"), HttpRoute::WebSocketInfo);
    assert_eq!(route_request("GET /v1/health HTTP/1.1\r\n\r\n"), HttpRoute::PredictionStatus);
    assert_eq!(route_request("GET /v1/indices/stats HTTP/1.1\r\n\r\n"), HttpRoute::PredictionStatus);
    assert_eq!(route_request("POST /v1/predict HTTP/1.1\r\n\r\n{}"), HttpRoute::Predict);
    assert_eq!(route_request("POST /v1/index/upload HTTP/1.1\r\n\r\n"), HttpRoute::UploadEmptyBody);
    assert_eq!(route_request("POST /v1/index/upload HTTP/1.1\r\n\r\n{\"model\":\"m\"}"), HttpRoute::UploadIndex);
    assert_eq!(route_request("GET /stats HTTP/1.1\r\n\r\n"), HttpRoute::Command(PathCommand::Stats));
    assert_eq!(route_request("GET /cascade HTTP/1.1"), HttpRoute::Command(PathCommand::CascadeStats));
    assert_eq!(route_request("GET /memory HTTP/1.1"), HttpRoute::Command(PathCommand::MemoryStats));
    assert_eq!(route_request("GET /bandwidth HTTP/1.1"), HttpRoute::Command(PathCommand::BandwidthStats));
    assert_eq!(route_request("GET /cache/stats HTTP/1.1"), HttpRoute::Command(PathCommand::CacheStats));
    assert_eq!(route_request("GET / HTTP/1.1"), HttpRoute::Command(PathCommand::Health));
    assert_eq!(route_request("GET /elsewhere HTTP/1.1"), HttpRoute::Command(PathCommand::Health));
    assert_eq!(route_request(""), HttpRoute::Command(PathCommand::Health));
}

#[test]
fn empty_upload_is_refused() {
    let reply = empty_upload_reply();
    let mut expected = serde_json::Map::new();
    expected.insert("success".to_string(), serde_json::Value::Bool(false));
    expected.insert("error".to_string(), serde_json::Value::String("EMPTY_BODY".to_string()));
    expected.insert(
        "message".to_string(),
        serde_json::Value::String("Request body is empty. Send GFEF index JSON.".to_string()),
    );
    let expected = serde_json::Value::Object(expected);
    assert_eq!(reply, serde_json::to_string_pretty(&expected).unwrap());
    let parsed: serde_json::Value = serde_json::from_str(&reply).unwrap();
    assert_eq!(parsed["success"], serde_json::Value::Bool(false));
    assert_eq!(parsed["error"], serde_json::Value::String("EMPTY_BODY".to_string()));
}
