//! The WebSocket opening handshake of the control-plane server (RFC 6455): the accept
//! key that answers a client's key, and the "101 Switching Protocols" reply.
use vstd::prelude::*;
use vstd::string::StringSliceAdditionalSpecFns;
use vstd::utf8::encode_utf8;
use base64::Engine;
use sha1::Digest;
use crate::http_request::{header_value, websocket_key};
use crate::control_plane::{websocket_binary_payload, VXLAN_HEADER_SIZE};

verus! {

/// The SHA-1 digest of `data`.
pub uninterp spec fn sha1_digest(data: Seq<u8>) -> Seq<u8>;

/// The character of the standard base64 alphabet (A-Z, a-z, 0-9, '+', '/') for the
/// six-bit value `v`.
pub open spec fn base64_char(v: int) -> char {
    if v < 26 {
        (65 + v) as char
    } else if v < 52 {
        (97 + (v - 26)) as char
    } else if v < 62 {
        (48 + (v - 52)) as char
    } else if v == 62 {
        '+'
    } else {
        '/'
    }
}

/// The base64 text of `data` in the standard alphabet, padded with '=': each group of
/// three bytes gives four characters, one for each six bits, most significant first; a
/// last group of one or two bytes is filled up with zero bits and padded to four
/// characters.
pub open spec fn base64_standard(data: Seq<u8>) -> Seq<char>
    decreases data.len(),
{
    if data.len() == 0 {
        Seq::empty()
    } else if data.len() == 1 {
        let a = data[0] as int;
        seq![base64_char(a / 4), base64_char((a % 4) * 16), '=', '=']
    } else if data.len() == 2 {
        let a = data[0] as int;
        let b = data[1] as int;
        seq![base64_char(a / 4), base64_char((a % 4) * 16 + b / 16), base64_char((b % 16) * 4), '=']
    } else {
        let a = data[0] as int;
        let b = data[1] as int;
        let c = data[2] as int;
        seq![
            base64_char(a / 4),
            base64_char((a % 4) * 16 + b / 16),
            base64_char((b % 16) * 4 + c / 64),
            base64_char(c % 64),
        ] + base64_standard(data.subrange(3, data.len() as int))
    }
}

/// `sha1::Sha1` fed `data` and finalized: the digest of `data`, 20 bytes long (the
/// hasher's output type is a 20-byte array).
#[verifier::external_body]
fn sha1_of(data: &[u8]) -> (d: Vec<u8>)
    ensures
        d@ == sha1_digest(data@),
        d@.len() == 20,
{
    let mut hasher = sha1::Sha1::new();
    hasher.update(data);
    hasher.finalize().to_vec()
}

/// `base64::engine::general_purpose::STANDARD.encode(data)`: the standard, padded
/// base64 text of `data` (the engine's alphabet is the standard one and its
/// configuration pads). The crate panics where the length of the text would not fit
/// in a `usize`, which `requires` leaves out.
#[verifier::external_body]
fn base64_of(data: &[u8]) -> (s: String)
    requires
        4 * ((data@.len() + 2) / 3) <= usize::MAX,
    ensures
        s@ == base64_standard(data@),
{
    base64::engine::general_purpose::STANDARD.encode(data)
}

/// The GUID that RFC 6455 appends to a client's key.
pub open spec fn websocket_guid() -> Seq<char> {
    "258EAFA5-E914-47DA-95CA-C5AB0DC85B11"@
}

/// The accept key that answers the WebSocket key `key`: the base64 text of the SHA-1
/// digest of the key followed by the GUID, as UTF-8 bytes.
pub open spec fn accept_key_of(key: Seq<char>) -> Seq<char> {
    base64_standard(sha1_digest(encode_utf8(key + websocket_guid())))
}

/// The accept key that answers the WebSocket key `key`.
pub fn websocket_accept_key(key: &str) -> (accept: String)
    ensures
        accept@ == accept_key_of(key@),
{
    let mut combined = String::from_str(key);
    combined.append("258EAFA5-E914-47DA-95CA-C5AB0DC85B11");
    let digest = sha1_of(combined.as_str().as_bytes());
    base64_of(digest.as_slice())
}

/// The reply that completes a WebSocket handshake with the accept key `accept`.
pub open spec fn handshake_reply(accept: Seq<char>) -> Seq<char> {
    "HTTP/1.1 101 Switching Protocols\r\nUpgrade: websocket\r\nConnection: Upgrade\r\nSec-WebSocket-Accept: "@
        + accept + "\r\n\r\n"@
}

/// The "101 Switching Protocols" reply that carries the accept key `accept`.
pub fn websocket_handshake_reply(accept: &str) -> (reply: String)
    ensures
        reply@ == handshake_reply(accept@),
{
    let mut reply = String::from_str(
        "HTTP/1.1 101 Switching Protocols\r\nUpgrade: websocket\r\nConnection: Upgrade\r\nSec-WebSocket-Accept: ",
    );
    reply.append(accept);
    reply.append("\r\n\r\n");
    reply
}

/// The reply to a WebSocket upgrade request: the "101 Switching Protocols" reply with
/// the accept key of the request's Sec-WebSocket-Key, or the error "Missing
/// Sec-WebSocket-Key" where the request has none.
pub fn websocket_handshake(request: &str) -> (r: Result<String, String>)
    ensures
        match header_value(request@, "sec-websocket-key:"@) {
            Some(key) => r matches Ok(reply) && reply@ == handshake_reply(accept_key_of(key)),
            None => r matches Err(e) && e@ == "Missing Sec-WebSocket-Key"@,
        },
{
    match websocket_key(request) {
        Some(key) => {
            let accept = websocket_accept_key(key.as_str());
            Ok(websocket_handshake_reply(accept.as_str()))
        },
        None => Err(String::from_str("Missing Sec-WebSocket-Key")),
    }
}

/// A message that arrives on the server's WebSocket, as far as the server tells them
/// apart.
pub enum WsMessage {
    Text,
    Binary(Vec<u8>),
    Ping(Vec<u8>),
    Close,
    Failed,
    Other,
}

/// What the server does with a WebSocket message.
pub enum WsAction {
    /// Read the text as a JSON command and answer it (or answer that it is invalid).
    ParseTextCommand,
    /// Read these bytes, the message without its VXLAN-style header, as a JSON command.
    ParseCommandBytes(Vec<u8>),
    /// Answer with a pong that carries these bytes.
    SendPong(Vec<u8>),
    /// End the connection.
    Stop,
    /// Leave the message unanswered.
    Ignore,
}

/// The server's answer to one WebSocket message: a text is a command; a binary message
/// longer than its header carries one after the header, and shorter ones are
/// ignored; a ping is answered with a pong of the same bytes; a close or a failure
/// ends the connection; anything else is ignored.
pub fn websocket_step(msg: WsMessage) -> (a: WsAction)
    ensures
        match msg {
            WsMessage::Text => a is ParseTextCommand,
            WsMessage::Binary(d) => if d@.len() > VXLAN_HEADER_SIZE {
                a matches WsAction::ParseCommandBytes(p) && p@ == d@.subrange(
                    VXLAN_HEADER_SIZE as int,
                    d@.len() as int,
                )
            } else {
                a is Ignore
            },
            WsMessage::Ping(d) => a matches WsAction::SendPong(p) && p@ == d@,
            WsMessage::Close => a is Stop,
            WsMessage::Failed => a is Stop,
            WsMessage::Other => a is Ignore,
        },
{
    match msg {
        WsMessage::Text => WsAction::ParseTextCommand,
        WsMessage::Binary(d) => match websocket_binary_payload(d.as_slice()) {
            Some(p) => WsAction::ParseCommandBytes(p),
            None => WsAction::Ignore,
        },
        WsMessage::Ping(d) => WsAction::SendPong(d),
        WsMessage::Close => WsAction::Stop,
        WsMessage::Failed => WsAction::Stop,
        WsMessage::Other => WsAction::Ignore,
    }
}

/// The message of the reply to a WebSocket text that is not a command.
pub fn invalid_command_message(error: &str) -> (m: String)
    ensures
        m@ == "Invalid command: "@ + error@,
{
    let mut m = String::from_str("Invalid command: ");
    m.append(error);
    m
}

/// A reply to a control command: whether it succeeded, its message, its data as JSON
/// text (none for an error), and how long the command took in nanoseconds.
pub struct CommandReply {
    pub success: bool,
    pub message: String,
    pub data: Option<String>,
    pub latency_ns: u64,
}

/// The reply to a WebSocket text that is not a command: a failure with the message
/// "Invalid command: " and the parse error, no data, and no latency.
pub fn invalid_command_reply(error: &str) -> (r: CommandReply)
    ensures
        !r.success,
        r.message@ == "Invalid command: "@ + error@,
        r.data is None,
        r.latency_ns == 0,
{
    CommandReply { success: false, message: invalid_command_message(error), data: None, latency_ns: 0 }
}


} // verus!
