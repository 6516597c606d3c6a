//! The opening handshake: the accept key and the checks on the server's reply.

use vstd::prelude::*;
use vstd::slice::slice_to_vec;
use vstd::string::StringSliceAdditionalSpecFns;
use crate::headers::{
    all_extensions_offered, extensions_offered, contains_token, entry_views, has_token, lookup, same_name, trim, trimmed, eq_ignore_case,
    HeaderModel, Headers,
};

verus! {

/// The GUID that the accept key appends to the client's key.
pub const ACCEPT_GUID: &'static str = "258EAFA5-E914-47DA-95CA-C5AB0DC85B11";

pub const SWITCHING_PROTOCOLS: u16 = 101;

/// Header names, in the lower case that lookups ignore.
pub const UPGRADE: &'static str = "upgrade";

pub const CONNECTION: &'static str = "connection";

pub const HOST: &'static str = "host";

pub const ORIGIN: &'static str = "origin";

pub const SEC_WEBSOCKET_KEY: &'static str = "sec-websocket-key";

pub const SEC_WEBSOCKET_ACCEPT: &'static str = "sec-websocket-accept";

pub const SEC_WEBSOCKET_VERSION: &'static str = "sec-websocket-version";

pub const SEC_WEBSOCKET_PROTOCOL: &'static str = "sec-websocket-protocol";

pub const SEC_WEBSOCKET_EXTENSIONS: &'static str = "sec-websocket-extensions";

/// The SHA-1 digest of the bytes.
pub uninterp spec fn sha1_of(b: Seq<u8>) -> Seq<u8>;

/// Relies on sha1::Sha1 (the sha1_smol implementation): `from` hashes the
/// input and `digest().bytes()` gives its 20-byte SHA-1 digest.
#[verifier::external_body]
fn sha1_digest(b: &[u8]) -> (r: Vec<u8>)
    ensures
        r@ == sha1_of(b@),
        r@.len() == 20,
{
    sha1::Sha1::from(b).digest().bytes().to_vec()
}

/// The base64 digit of a six-bit value, in the standard alphabet.
pub open spec fn base64_digit(v: int) -> u8 {
    if v < 26 {
        (65 + v) as u8
    } else if v < 52 {
        (97 + v - 26) as u8
    } else if v < 62 {
        (48 + v - 52) as u8
    } else if v == 62 {
        43u8
    } else {
        47u8
    }
}

/// The standard, padded base64 text of the bytes: four digits for each group
/// of three bytes, the last group padded with `=`.
pub open spec fn base64_of(b: Seq<u8>) -> Seq<u8>
    decreases b.len(),
{
    if b.len() == 0 {
        Seq::empty()
    } else {
        let x = b[0] as int;
        let y = if b.len() > 1 { b[1] as int } else { 0int };
        let z = if b.len() > 2 { b[2] as int } else { 0int };
        let d0 = base64_digit(x / 4);
        let d1 = base64_digit((x % 4) * 16 + y / 16);
        let d2 = base64_digit((y % 16) * 4 + z / 64);
        let d3 = base64_digit(z % 64);
        if b.len() == 1 {
            seq![d0, d1, 61u8, 61u8]
        } else if b.len() == 2 {
            seq![d0, d1, d2, 61u8]
        } else {
            seq![d0, d1, d2, d3] + base64_of(b.skip(3))
        }
    }
}

/// Relies on base64::encode: the standard alphabet with `=` padding.
#[verifier::external_body]
fn base64_encode(b: &[u8]) -> (r: Vec<u8>)
    ensures
        r@ == base64_of(b@),
{
    base64::encode(b).into_bytes()
}

/// The base64 text of a 16-byte handshake nonce.
pub fn encode_key(nonce: [u8; 16]) -> (r: Vec<u8>)
    ensures
        r@ == base64_of(nonce@),
{
    base64_encode(nonce.as_slice())
}

/// The accept value a server must return for the key `key`:
/// base64 of the SHA-1 of the key followed by the GUID.
pub fn accept_key(key: &[u8]) -> (r: Vec<u8>)
    ensures
        r@ == base64_of(sha1_of(key@ + ACCEPT_GUID.spec_bytes())),
{
    let mut buf = slice_to_vec(key);
    let mut guid = slice_to_vec(ACCEPT_GUID.as_bytes());
    buf.append(&mut guid);
    let digest = sha1_digest(buf.as_slice());
    base64_encode(digest.as_slice())
}

/// Why an opening handshake failed.
#[derive(Clone, Copy, Debug, PartialEq, Eq, Structural)]
pub enum HandshakeError {
    /// The reply is not a complete HTTP response head.
    MalformedResponse,
    /// The request holds no `Sec-WebSocket-Key`.
    MissingKey,
    BadStatus,
    BadAccept,
    BadUpgrade,
    BadConnection,
    /// The reply selects a subprotocol that was not offered.
    BadProtocol,
    /// The reply names an extension that was not offered.
    BadExtension,
    /// The request is not a complete HTTP request head.
    MalformedRequest,
    /// The request's method is not GET.
    BadMethod,
    /// The request is older than HTTP/1.1.
    BadVersion,
    MissingHost,
    /// The request asks for a protocol version other than 13.
    UnsupportedVersion,
    /// The key is missing or is not the base64 text of 16 bytes.
    BadKey,
}

/// The status line and headers of an HTTP response.
#[derive(Clone, Debug)]
pub struct ResponseHead {
    pub status: u16,
    /// The minor HTTP version: 1 for HTTP/1.1.
    pub version: u8,
    pub headers: Headers,
}

/// The verdict on a reply with status `status` and headers `hs`, to a request
/// with headers `req`, when `accept` is the accept value the key calls for.
pub open spec fn response_verdict(
    status: u16,
    hs: HeaderModel,
    accept: Seq<u8>,
    req: HeaderModel,
) -> Result<(), HandshakeError> {
    if status != SWITCHING_PROTOCOLS {
        Err(HandshakeError::BadStatus)
    } else if lookup(hs, SEC_WEBSOCKET_ACCEPT.spec_bytes()) != Some(accept) {
        Err(HandshakeError::BadAccept)
    } else if !(lookup(hs, UPGRADE.spec_bytes()) matches Some(u) && same_name(
        u,
        "websocket".spec_bytes(),
    )) {
        Err(HandshakeError::BadUpgrade)
    } else if !(lookup(hs, CONNECTION.spec_bytes()) matches Some(c) && has_token(
        c,
        "upgrade".spec_bytes(),
    )) {
        Err(HandshakeError::BadConnection)
    } else if lookup(hs, SEC_WEBSOCKET_PROTOCOL.spec_bytes()) matches Some(p) && !(lookup(
        req,
        SEC_WEBSOCKET_PROTOCOL.spec_bytes(),
    ) matches Some(o) && has_token(o, trim(p))) {
        Err(HandshakeError::BadProtocol)
    } else if lookup(hs, SEC_WEBSOCKET_EXTENSIONS.spec_bytes()) matches Some(x) && !(lookup(
        req,
        SEC_WEBSOCKET_EXTENSIONS.spec_bytes(),
    ) matches Some(o) && extensions_offered(x, o)) {
        Err(HandshakeError::BadExtension)
    } else {
        Ok(())
    }
}

/// Checks a reply against the accept value `accept` and the request headers `req`.
pub fn check_response(head: &ResponseHead, accept: &[u8], req: &Headers) -> (r: Result<
    (),
    HandshakeError,
>)
    ensures
        r == response_verdict(head.status, head.headers@, accept@, req@),
{
    if head.status != SWITCHING_PROTOCOLS {
        return Err(HandshakeError::BadStatus);
    }
    match head.headers.get(SEC_WEBSOCKET_ACCEPT.as_bytes()) {
        Some(a) => {
            if !bytes_eq(a.as_slice(), accept) {
                return Err(HandshakeError::BadAccept);
            }
        },
        None => {
            return Err(HandshakeError::BadAccept);
        },
    }
    match head.headers.get(UPGRADE.as_bytes()) {
        Some(u) => {
            if !eq_ignore_case(u.as_slice(), "websocket".as_bytes()) {
                return Err(HandshakeError::BadUpgrade);
            }
        },
        None => {
            return Err(HandshakeError::BadUpgrade);
        },
    }
    match head.headers.get(CONNECTION.as_bytes()) {
        Some(c) => {
            if !contains_token(c.as_slice(), "upgrade".as_bytes()) {
                return Err(HandshakeError::BadConnection);
            }
        },
        None => {
            return Err(HandshakeError::BadConnection);
        },
    }
    match head.headers.get(SEC_WEBSOCKET_PROTOCOL.as_bytes()) {
        Some(p) => {
            let chosen = trimmed(p.as_slice());
            match req.get(SEC_WEBSOCKET_PROTOCOL.as_bytes()) {
                Some(o) => {
                    if !contains_token(o.as_slice(), chosen.as_slice()) {
                        return Err(HandshakeError::BadProtocol);
                    }
                },
                None => {
                    return Err(HandshakeError::BadProtocol);
                },
            }
        },
        None => {},
    }
    match head.headers.get(SEC_WEBSOCKET_EXTENSIONS.as_bytes()) {
        Some(x) => match req.get(SEC_WEBSOCKET_EXTENSIONS.as_bytes()) {
            Some(o) => {
                if !all_extensions_offered(x.as_slice(), o.as_slice()) {
                    return Err(HandshakeError::BadExtension);
                }
            },
            None => {
                return Err(HandshakeError::BadExtension);
            },
        },
        None => {},
    }
    Ok(())
}

/// Whether two byte strings are equal.
pub fn bytes_eq(a: &[u8], b: &[u8]) -> (r: bool)
    ensures
        r == (a@ == b@),
{
    if a.len() != b.len() {
        return false;
    }
    let n = a.len();
    let mut i: usize = 0;
    while i < n
        invariant
            i <= n,
            n == a@.len(),
            n == b@.len(),
            forall|j: int| 0 <= j < i ==> a@[j] == b@[j],
        decreases n - i,
    {
        if a[i] != b[i] {
            return false;
        }
        i = i + 1;
    }
    assert(a@ =~= b@);
    true
}

/// What the HTTP parser reads from the start of `b`, allowing at most
/// `max_headers` headers: the length of the head, the status, the minor
/// version and the headers; nothing if the head is incomplete or malformed.
pub uninterp spec fn parsed_response(b: Seq<u8>, max_headers: nat) -> Option<
    (nat, u16, u8, HeaderModel),
>;

/// Relies on httparse::Response::parse: `Complete(n)` when the first `n`
/// bytes of `buf` are a complete response head, whose status, minor version
/// and headers (in order) it fills in; `Partial` or an error otherwise.
#[verifier::external_body]
fn parse_response(buf: &[u8], max_headers: usize) -> (r: Option<
    (usize, u16, u8, Vec<(Vec<u8>, Vec<u8>)>),
>)
    ensures
        match r {
            Some(x) => parsed_response(buf@, max_headers as nat) == Some(
                (x.0 as nat, x.1, x.2, entry_views(x.3@)),
            ) && x.0 <= buf@.len(),
            None => parsed_response(buf@, max_headers as nat) is None,
        },
{
    let mut hs = vec![httparse::EMPTY_HEADER; max_headers];
    let mut res = httparse::Response::new(&mut hs);
    match res.parse(buf) {
        Ok(httparse::Status::Complete(n)) => Some((n, res.code.unwrap_or(0),
            res.version.unwrap_or(0), res.headers.iter().map(
            |h| (h.name.as_bytes().to_vec(), h.value.to_vec()),
        ).collect())),
        _ => None,
    }
}

/// The most headers a reply may carry.
pub const MAX_HEADERS: usize = 100;

/// Reads the response head at the start of `buf`; also gives its length,
/// after which the frames begin.
pub fn read_response_head(buf: &[u8]) -> (r: Result<(ResponseHead, usize), HandshakeError>)
    ensures
        match parsed_response(buf@, MAX_HEADERS as nat) {
            None => r == Err::<(ResponseHead, usize), HandshakeError>(
                HandshakeError::MalformedResponse,
            ),
            Some((n, status, version, hs)) => r matches Ok((h, u)) && u == n && h.status == status
                && h.version == version && h.headers@ == hs && u <= buf@.len(),
        },
{
    match parse_response(buf, MAX_HEADERS) {
        None => Err(HandshakeError::MalformedResponse),
        Some((n, status, version, entries)) => Ok(
            (ResponseHead { status, version, headers: Headers { entries } }, n),
        ),
    }
}

} // verus!
