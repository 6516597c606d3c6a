use websocket::handshake::HandshakeError;
use websocket::headers::Headers;
use websocket::server::{
    accept_response, read_request_head, reject_response, upgrade_required_response, RequestHead,
};

fn request(extra: &str) -> String {
    format!(
        "GET /chat HTTP/1.1\r\nHost: server.example.com\r\nUpgrade: websocket\r\nConnection: keep-alive, Upgrade\r\n{}\r\n",
        extra
    )
}

fn head(text: &str) -> RequestHead {
    read_request_head(text.as_bytes()).unwrap().0
}

const KEY: &str = "Sec-WebSocket-Key: dGhlIHNhbXBsZSBub25jZQ==\r\nSec-WebSocket-Version: 13\r\n";

#[test]
fn server_accepts_rfc_request() {
    let text = request(KEY);
    let (h, used) = read_request_head(text.as_bytes()).unwrap();
    assert_eq!(used, text.len());
    assert_eq!(h.method, b"GET".to_vec());
    assert_eq!(h.path, b"/chat".to_vec());
    assert_eq!(h.version, 1);
    let key = h.validate().unwrap();
    assert_eq!(key, b"dGhlIHNhbXBsZSBub25jZQ==".to_vec());
    let reply = String::from_utf8(accept_response(&key, Some(b"chat"), None)).unwrap();
    assert_eq!(
        reply,
        "HTTP/1.1 101 Switching Protocols\r\nupgrade: websocket\r\nconnection: Upgrade\r\nsec-websocket-accept: s3pPLMBiTxaQ9kYGzzhZRbK+xOo=\r\nsec-websocket-protocol: chat\r\n\r\n"
    );
}

#[test]
fn server_request_errors() {
    let post = format!(
        "POST /chat HTTP/1.1\r\nHost: a\r\nUpgrade: websocket\r\nConnection: Upgrade\r\n{}\r\n",
        KEY
    );
    assert_eq!(head(&post).validate(), Err(HandshakeError::BadMethod));
    let old = format!(
        "GET /chat HTTP/1.0\r\nHost: a\r\nUpgrade: websocket\r\nConnection: Upgrade\r\n{}\r\n",
        KEY
    );
    assert_eq!(head(&old).validate(), Err(HandshakeError::BadVersion));
    let no_host = format!(
        "GET /chat HTTP/1.1\r\nUpgrade: websocket\r\nConnection: Upgrade\r\n{}\r\n",
        KEY
    );
    assert_eq!(head(&no_host).validate(), Err(HandshakeError::MissingHost));
    let no_upgrade = format!("GET / HTTP/1.1\r\nHost: a\r\nConnection: Upgrade\r\n{}\r\n", KEY);
    assert_eq!(head(&no_upgrade).validate(), Err(HandshakeError::BadUpgrade));
    let no_connection = format!("GET / HTTP/1.1\r\nHost: a\r\nUpgrade: websocket\r\n{}\r\n", KEY);
    assert_eq!(head(&no_connection).validate(), Err(HandshakeError::BadConnection));
    let v8 = request("Sec-WebSocket-Key: dGhlIHNhbXBsZSBub25jZQ==\r\nSec-WebSocket-Version: 8\r\n");
    assert_eq!(head(&v8).validate(), Err(HandshakeError::UnsupportedVersion));
    let short_key = request("Sec-WebSocket-Key: c2hvcnQ=\r\nSec-WebSocket-Version: 13\r\n");
    assert_eq!(head(&short_key).validate(), Err(HandshakeError::BadKey));
    let not_base64 = request("Sec-WebSocket-Key: !!!!\r\nSec-WebSocket-Version: 13\r\n");
    assert_eq!(head(&not_base64).validate(), Err(HandshakeError::BadKey));
    let no_key = request("Sec-WebSocket-Version: 13\r\n");
    assert_eq!(head(&no_key).validate(), Err(HandshakeError::BadKey));
    assert_eq!(
        read_request_head(b"GET / HTTP/1.1\r\nHost: a\r\n").unwrap_err(),
        HandshakeError::MalformedRequest
    );
}

#[test]
fn server_validate_with_decoded_key() {
    let h = head(&request(KEY));
    assert_eq!(h.validate_with(Some(vec![0u8; 16])), Ok(b"dGhlIHNhbXBsZSBub25jZQ==".to_vec()));
    assert_eq!(h.validate_with(Some(vec![0u8; 15])), Err(HandshakeError::BadKey));
    assert_eq!(h.validate_with(None), Err(HandshakeError::BadKey));
}

#[test]
fn server_rejections() {
    assert_eq!(
        String::from_utf8(upgrade_required_response()).unwrap(),
        "HTTP/1.1 426 Upgrade Required\r\nsec-websocket-version: 13\r\n\r\n"
    );
    let mut hs = Headers::new();
    hs.insert(b"Retry-After", b"5");
    assert_eq!(
        String::from_utf8(reject_response(503, &hs)).unwrap(),
        "HTTP/1.1 503 \r\nRetry-After: 5\r\n\r\n"
    );
}
