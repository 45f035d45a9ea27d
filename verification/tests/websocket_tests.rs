use symmetrix::websocket::invalid_command_reply;
use symmetrix::websocket::{invalid_command_message, websocket_step, WsAction, WsMessage};
use symmetrix::websocket::{websocket_accept_key, websocket_handshake};

#[test]
fn accept_key_of_the_rfc_example() {
    // RFC 6455, section 1.3
    assert_eq!(websocket_accept_key("dGhlIHNhbXBsZSBub25jZQ=="), "s3pPLMBiTxaQ9kYGzzhZRbK+xOo=");
}

#[test]
fn accept_keys_differ_by_key() {
    let a = websocket_accept_key("x3JJHMbDL1EzLkh9GBhXDw==");
    assert_eq!(a, "HSmrc0sMlYUkAGmm5OPpG2HaGWk=");
    assert_ne!(a, websocket_accept_key("dGhlIHNhbXBsZSBub25jZQ=="));
    assert_eq!(a.len(), 28);
}

#[test]
fn handshake_reply() {
    let request = "GET /ws HTTP/1.1\r\nHost: server.example.com\r\nUpgrade: websocket\r\nConnection: Upgrade\r\nSec-WebSocket-Key: dGhlIHNhbXBsZSBub25jZQ==\r\n\r\n";
    assert_eq!(
        websocket_handshake(request),
        Ok("HTTP/1.1 101 Switching Protocols\r\nUpgrade: websocket\r\nConnection: Upgrade\r\nSec-WebSocket-Accept: s3pPLMBiTxaQ9kYGzzhZRbK+xOo=\r\n\r\n".to_string())
    );
}

#[test]
fn handshake_without_key() {
    assert_eq!(
        websocket_handshake("GET /ws HTTP/1.1\r\nUpgrade: websocket\r\n\r\n"),
        Err("Missing Sec-WebSocket-Key".to_string())
    );
}

#[test]
fn handshake_reply_carries_the_accept_key() {
    assert_eq!(
        symmetrix::websocket::websocket_handshake_reply("abc="),
        "HTTP/1.1 101 Switching Protocols\r\nUpgrade: websocket\r\nConnection: Upgrade\r\nSec-WebSocket-Accept: abc=\r\n\r\n"
    );
}

#[test]
fn websocket_steps() {
    assert!(matches!(websocket_step(WsMessage::Text), WsAction::ParseTextCommand));
    match websocket_step(WsMessage::Binary(vec![0, 0, 0, 0, 0, 0, 0, 0, b'{', b'}'])) {
        WsAction::ParseCommandBytes(p) => assert_eq!(p, b"{}".to_vec()),
        _ => panic!("expected a command"),
    }
    assert!(matches!(websocket_step(WsMessage::Binary(vec![1; 8])), WsAction::Ignore));
    match websocket_step(WsMessage::Ping(vec![7, 8])) {
        WsAction::SendPong(p) => assert_eq!(p, vec![7, 8]),
        _ => panic!("expected a pong"),
    }
    assert!(matches!(websocket_step(WsMessage::Close), WsAction::Stop));
    assert!(matches!(websocket_step(WsMessage::Failed), WsAction::Stop));
    assert!(matches!(websocket_step(WsMessage::Other), WsAction::Ignore));
    assert_eq!(invalid_command_message("missing field `cmd`"), "Invalid command: missing field `cmd`");
}

#[test]
fn invalid_command_reply_fields() {
    let r = invalid_command_reply("unknown variant `Bogus`");
    assert!(!r.success);
    assert_eq!(r.message, "Invalid command: unknown variant `Bogus`");
    assert!(r.data.is_none());
    assert_eq!(r.latency_ns, 0);
}
