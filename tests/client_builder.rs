use websocket::client::{ClientBuilder, Extension, Parameter, UrlError, WebSocketVersion, WsUrl};
use websocket::handshake::{
    accept_key, encode_key, read_response_head, HandshakeError, ResponseHead,
};
use websocket::headers::{split_tokens, Headers};

fn tokens_of(value: &[u8]) -> Vec<String> {
    split_tokens(value)
        .into_iter()
        .map(|t| String::from_utf8(t).unwrap())
        .collect()
}

#[test]
fn build_client_with_protocols() {
    let builder = ClientBuilder::new("ws://127.0.0.1:8080/hello/world")
        .unwrap()
        .add_protocols(vec!["protobeard"]);

    let protos = tokens_of(&builder.get_header("Sec-WebSocket-Protocol").unwrap());

    assert!(protos.contains(&"protobeard".to_string()));
    assert!(protos.len() == 1);

    let builder = ClientBuilder::new("ws://example.org/hello")
        .unwrap()
        .clear_protocols()
        .add_protocols(vec!["electric", "boogaloo"]);

    let protos = tokens_of(&builder.get_header("Sec-WebSocket-Protocol").unwrap());

    assert!(protos.contains(&"boogaloo".to_string()));
    assert!(protos.contains(&"electric".to_string()));
    assert!(!protos.contains(&"rust-websocket".to_string()));
}

#[test]
fn client_key_round_trip() {
    let key = encode_key(*b"the sample nonce");
    assert_eq!(key, b"dGhlIHNhbXBsZSBub25jZQ==".to_vec());
    assert_eq!(accept_key(&key), b"s3pPLMBiTxaQ9kYGzzhZRbK+xOo=".to_vec());
}

#[test]
fn accept_key_differs_from_key() {
    let key = b"dGhlIHNhbXBsZSBub25jZQ==";
    assert_ne!(accept_key(key), key.to_vec());
    assert_eq!(accept_key(key).len(), 28);
}

fn reply(extra: &str) -> Vec<u8> {
    format!(
        "HTTP/1.1 101 Switching Protocols\r\nUpgrade: websocket\r\nConnection: Upgrade\r\n{}\r\n",
        extra
    )
    .into_bytes()
}

#[test]
fn handshake_accepts_rfc_example() {
    let mut builder = ClientBuilder::new("wss://test.ws").unwrap().key(*b"the sample nonce");
    let request = String::from_utf8(builder.request()).unwrap();
    assert!(request.starts_with("GET / HTTP/1.1\r\n"));
    assert!(request.contains("dGhlIHNhbXBsZSBub25jZQ=="));
    assert!(request.contains("host: test.ws\r\n"));
    assert!(request.ends_with("\r\n\r\n"));
    let mut buf = reply("Sec-WebSocket-Accept: s3pPLMBiTxaQ9kYGzzhZRbK+xOo=\r\n");
    let head_len = buf.len();
    buf.extend_from_slice(&[0x81, 0x00]);
    let (head, used) = builder.read_response(&buf).unwrap();
    assert_eq!(used, head_len);
    assert_eq!(head.status, 101);
    assert_eq!(head.version, 1);
    assert_eq!(&buf[used..], &[0x81, 0x00]);
}

#[test]
fn handshake_accept_follows_sent_key() {
    let mut builder = ClientBuilder::new("ws://example.org/chat?room=1").unwrap();
    let request = builder.request_with_nonce([7u8; 16]);
    let request = String::from_utf8(request).unwrap();
    assert!(request.starts_with("GET /chat?room=1 HTTP/1.1\r\n"));
    let sent = builder.get_header("sec-websocket-key").unwrap();
    assert_eq!(sent, encode_key([7u8; 16]));
    let accept = String::from_utf8(accept_key(&sent)).unwrap();
    let buf = reply(&format!("Sec-WebSocket-Accept: {}\r\n", accept));
    assert!(builder.read_response(&buf).is_ok());
    let buf = reply("Sec-WebSocket-Accept: s3pPLMBiTxaQ9kYGzzhZRbK+xOo=\r\n");
    assert_eq!(builder.read_response(&buf).unwrap_err(), HandshakeError::BadAccept);
}

fn builder_with_key() -> ClientBuilder {
    let mut b = ClientBuilder::new("ws://test.ws").unwrap().key(*b"the sample nonce");
    b.build_request([0u8; 16]);
    b
}

fn head_of(text: &str) -> ResponseHead {
    read_response_head(text.as_bytes()).unwrap().0
}

#[test]
fn handshake_errors() {
    let b = builder_with_key();
    let ok = "Sec-WebSocket-Accept: s3pPLMBiTxaQ9kYGzzhZRbK+xOo=\r\n";
    let bad_status = format!(
        "HTTP/1.1 200 OK\r\nUpgrade: websocket\r\nConnection: Upgrade\r\n{}\r\n",
        ok
    );
    assert_eq!(b.validate(&head_of(&bad_status)), Err(HandshakeError::BadStatus));
    let bad_upgrade = format!(
        "HTTP/1.1 101 Switching Protocols\r\nUpgrade: h2c\r\nConnection: Upgrade\r\n{}\r\n",
        ok
    );
    assert_eq!(b.validate(&head_of(&bad_upgrade)), Err(HandshakeError::BadUpgrade));
    let bad_connection = format!(
        "HTTP/1.1 101 Switching Protocols\r\nUpgrade: WebSocket\r\nConnection: close\r\n{}\r\n",
        ok
    );
    assert_eq!(b.validate(&head_of(&bad_connection)), Err(HandshakeError::BadConnection));
    let listed = format!(
        "HTTP/1.1 101 Switching Protocols\r\nUpgrade: WEBSOCKET\r\nConnection: keep-alive, upgrade\r\n{}\r\n",
        ok
    );
    assert_eq!(b.validate(&head_of(&listed)), Ok(()));
    let unoffered = format!(
        "HTTP/1.1 101 Switching Protocols\r\nUpgrade: websocket\r\nConnection: Upgrade\r\nSec-WebSocket-Protocol: chat\r\n{}\r\n",
        ok
    );
    assert_eq!(b.validate(&head_of(&unoffered)), Err(HandshakeError::BadProtocol));
    let b2 = builder_with_key().add_protocols(vec!["superchat", "chat"]);
    assert_eq!(b2.validate(&head_of(&unoffered)), Ok(()));
    let with_ext = format!(
        "HTTP/1.1 101 Switching Protocols\r\nUpgrade: websocket\r\nConnection: Upgrade\r\nSec-WebSocket-Extensions: permessage-deflate; server_no_context_takeover\r\n{}\r\n",
        ok
    );
    assert_eq!(b.validate(&head_of(&with_ext)), Err(HandshakeError::BadExtension));
    let b3 = builder_with_key().add_extensions(vec![
        Extension { name: "x-other".to_string(), params: vec![] },
        Extension { name: "Permessage-Deflate".to_string(), params: vec![] },
    ]);
    assert_eq!(b3.validate(&head_of(&with_ext)), Ok(()));
    let b4 = builder_with_key()
        .add_extensions(vec![Extension { name: "x-other".to_string(), params: vec![] }]);
    assert_eq!(b4.validate(&head_of(&with_ext)), Err(HandshakeError::BadExtension));
    let no_key = ClientBuilder::new("ws://test.ws").unwrap();
    assert_eq!(no_key.validate(&head_of(&listed)), Err(HandshakeError::MissingKey));
    assert_eq!(no_key.validate(&head_of(&bad_status)), Err(HandshakeError::BadStatus));
    assert_eq!(
        b.read_response(b"HTTP/1.1 101 Switching Protocols\r\nUpgrade: websocket\r\n").unwrap_err(),
        HandshakeError::MalformedResponse
    );
}

#[test]
fn request_defaults() {
    let mut b = ClientBuilder::new("ws://127.0.0.1:8080/hello/world").unwrap();
    let resource = b.build_request([1u8; 16]);
    assert_eq!(resource, b"/hello/world".to_vec());
    assert_eq!(b.get_header("Host").unwrap(), b"127.0.0.1:8080".to_vec());
    assert_eq!(b.get_header("Upgrade").unwrap(), b"websocket".to_vec());
    assert_eq!(b.get_header("Connection").unwrap(), b"Upgrade".to_vec());
    assert_eq!(b.get_header("Sec-WebSocket-Version").unwrap(), b"13".to_vec());
    assert_eq!(b.get_header("Sec-WebSocket-Key").unwrap().len(), 24);

    let mut b = ClientBuilder::new("wss://example.org:443").unwrap();
    assert_eq!(b.build_request([1u8; 16]), b"/".to_vec());
    assert_eq!(b.get_header("host").unwrap(), b"example.org".to_vec());

    let mut b = ClientBuilder::new("ws://example.org:443/").unwrap();
    b.build_request([1u8; 16]);
    assert_eq!(b.get_header("host").unwrap(), b"example.org:443".to_vec());
    let mut b = ClientBuilder::new("wss://example.org:80/").unwrap();
    b.build_request([1u8; 16]);
    assert_eq!(b.get_header("host").unwrap(), b"example.org:80".to_vec());
    let mut b = ClientBuilder::new("ws://example.org:80/").unwrap();
    b.build_request([1u8; 16]);
    assert_eq!(b.get_header("host").unwrap(), b"example.org".to_vec());

    let mut b = ClientBuilder::new("ws://example.org")
        .unwrap()
        .version(WebSocketVersion::Unknown("8".to_string()));
    b.build_request([1u8; 16]);
    assert_eq!(b.get_header("sec-websocket-version").unwrap(), b"8".to_vec());
    let b = b.clear_version();
    assert!(b.get_header("sec-websocket-version").is_none());
}

#[test]
fn builder_headers() {
    let mut custom = Headers::new();
    custom.insert(b"Authorization", b"let me in");
    custom.insert(b"Cookie", b"userid=1");
    let b = ClientBuilder::new("ws://moz.illest")
        .unwrap()
        .custom_headers(custom)
        .origin("https://moz.illest".to_string());
    assert_eq!(b.get_header("authorization").unwrap(), b"let me in".to_vec());
    assert_eq!(b.get_header("ORIGIN").unwrap(), b"https://moz.illest".to_vec());
    let b = b.clear_header("Cookie").clear_origin();
    assert!(b.get_header("cookie").is_none());
    assert!(b.get_header("origin").is_none());
    assert!(b.get_header("authorization").is_some());

    let b = b.add_extensions(vec![
        Extension {
            name: "permessage-deflate".to_string(),
            params: vec![Parameter {
                name: "client_max_window_bits".to_string(),
                value: None,
            }],
        },
        Extension {
            name: "crypt-omemo".to_string(),
            params: vec![Parameter { name: "v".to_string(), value: Some("2".to_string()) }],
        },
    ]);
    assert_eq!(
        b.get_header("Sec-WebSocket-Extensions").unwrap(),
        b"permessage-deflate; client_max_window_bits, crypt-omemo; v=2".to_vec()
    );
    let b = b.clear_extensions();
    assert!(b.get_header("Sec-WebSocket-Extensions").is_none());
    let b = b.key([9u8; 16]);
    assert!(b.key_set);
    let b = b.clear_key();
    assert!(!b.key_set);
    assert!(b.get_header("Sec-WebSocket-Key").is_none());
}

#[test]
fn url_errors_and_ports() {
    assert_eq!(ClientBuilder::new("not a url").unwrap_err(), UrlError::Parse);
    assert_eq!(ClientBuilder::new("http://example.org").unwrap_err(), UrlError::UnknownScheme);
    let b = ClientBuilder::new("wss://example.org/x").unwrap();
    assert!(b.url.secure);
    assert_eq!(b.extract_host_port(None).unwrap(), (b"example.org".to_vec(), 443));
    assert_eq!(b.extract_host_port(Some(false)).unwrap(), (b"example.org".to_vec(), 80));
    let b = ClientBuilder::new("ws://example.org:9001").unwrap();
    assert_eq!(b.extract_host_port(Some(true)).unwrap(), (b"example.org".to_vec(), 9001));
    let hostless = WsUrl::from_parts(b"ws", None, None, b"/".to_vec()).unwrap();
    assert_eq!(
        ClientBuilder::from_url(hostless).extract_host_port(None).unwrap_err(),
        UrlError::NoHost
    );
    assert_eq!(
        WsUrl::from_parts(b"ftp", None, None, b"/".to_vec()).unwrap_err(),
        UrlError::UnknownScheme
    );
}
