//! The server side of the opening handshake.

use vstd::prelude::*;
use vstd::slice::slice_to_vec;
use vstd::string::StringSliceAdditionalSpecFns;
use crate::client::{decimal, header_lines, opt_view, push_decimal, utf8_bytes, write_headers};
use crate::handshake::{
    accept_key, base64_of, bytes_eq, sha1_of, HandshakeError, ACCEPT_GUID, CONNECTION, HOST, MAX_HEADERS,
    SEC_WEBSOCKET_ACCEPT, SEC_WEBSOCKET_EXTENSIONS, SEC_WEBSOCKET_KEY, SEC_WEBSOCKET_PROTOCOL,
    SEC_WEBSOCKET_VERSION, UPGRADE,
};
use crate::headers::{contains_token, entry_views, has_token, lookup, HeaderModel, Headers};

verus! {

/// The request line and headers of an HTTP request.
#[derive(Clone, Debug)]
pub struct RequestHead {
    pub method: Vec<u8>,
    pub path: Vec<u8>,
    /// The minor HTTP version: 1 for HTTP/1.1.
    pub version: u8,
    pub headers: Headers,
}

/// What the HTTP parser reads from the start of `b`, allowing at most
/// `max_headers` headers: the length of the head, the method, the target,
/// the minor version and the headers; nothing if the head is incomplete or
/// malformed.
pub uninterp spec fn parsed_request(b: Seq<u8>, max_headers: nat) -> Option<
    (nat, Seq<u8>, Seq<u8>, u8, HeaderModel),
>;

/// Relies on httparse::Request::parse: `Complete(n)` when the first `n`
/// bytes of `buf` are a complete request head, whose method, target, minor
/// version and headers (in order) it fills in; `Partial` or an error otherwise.
#[verifier::external_body]
fn parse_request(buf: &[u8], max_headers: usize) -> (r: Option<
    (usize, Vec<u8>, Vec<u8>, u8, Vec<(Vec<u8>, Vec<u8>)>),
>)
    ensures
        match r {
            Some(x) => parsed_request(buf@, max_headers as nat) == Some(
                (x.0 as nat, x.1@, x.2@, x.3, entry_views(x.4@)),
            ) && x.0 <= buf@.len(),
            None => parsed_request(buf@, max_headers as nat) is None,
        },
{
    let mut hs = vec![httparse::EMPTY_HEADER; max_headers];
    let mut req = httparse::Request::new(&mut hs);
    match req.parse(buf) {
        Ok(httparse::Status::Complete(n)) => Some((n, req.method.unwrap_or("").as_bytes().to_vec(),
            req.path.unwrap_or("").as_bytes().to_vec(), req.version.unwrap_or(0),
            req.headers.iter().map(|h| (h.name.as_bytes().to_vec(), h.value.to_vec())).collect())),
        _ => None,
    }
}

/// The bytes that a base64 text stands for.
pub uninterp spec fn base64_decoded(s: Seq<u8>) -> Option<Seq<u8>>;

/// Relies on base64::decode: the bytes that standard, padded base64 text
/// stands for, and an error for any other text.
#[verifier::external_body]
fn base64_decode(s: &[u8]) -> (r: Option<Vec<u8>>)
    ensures
        opt_view(r) == base64_decoded(s@),
{
    base64::decode(s).ok()
}

/// Reads the request head at the start of `buf`; also gives its length.
pub fn read_request_head(buf: &[u8]) -> (r: Result<(RequestHead, usize), HandshakeError>)
    ensures
        match parsed_request(buf@, MAX_HEADERS as nat) {
            None => r == Err::<(RequestHead, usize), HandshakeError>(
                HandshakeError::MalformedRequest,
            ),
            Some((n, method, path, version, hs)) => r matches Ok((h, u)) && u == n && h.method@
                == method && h.path@ == path && h.version == version && h.headers@ == hs,
        },
{
    match parse_request(buf, MAX_HEADERS) {
        None => Err(HandshakeError::MalformedRequest),
        Some((n, method, path, version, entries)) => Ok(
            (RequestHead { method, path, version, headers: Headers { entries } }, n),
        ),
    }
}

/// The verdict on an opening request, `decoded` being what its key decodes
/// to: on success, the key to answer.
pub open spec fn request_verdict(
    method: Seq<u8>,
    version: u8,
    hs: HeaderModel,
    decoded: Option<Seq<u8>>,
) -> Result<Seq<u8>, HandshakeError> {
    if method != "GET".spec_bytes() {
        Err(HandshakeError::BadMethod)
    } else if version < 1 {
        Err(HandshakeError::BadVersion)
    } else if lookup(hs, HOST.spec_bytes()) is None {
        Err(HandshakeError::MissingHost)
    } else if !(lookup(hs, UPGRADE.spec_bytes()) matches Some(u) && has_token(
        u,
        "websocket".spec_bytes(),
    )) {
        Err(HandshakeError::BadUpgrade)
    } else if !(lookup(hs, CONNECTION.spec_bytes()) matches Some(c) && has_token(
        c,
        "upgrade".spec_bytes(),
    )) {
        Err(HandshakeError::BadConnection)
    } else if lookup(hs, SEC_WEBSOCKET_VERSION.spec_bytes()) != Some("13".spec_bytes()) {
        Err(HandshakeError::UnsupportedVersion)
    } else if !(lookup(hs, SEC_WEBSOCKET_KEY.spec_bytes()) is Some && (decoded matches Some(d)
        && d.len() == 16)) {
        Err(HandshakeError::BadKey)
    } else {
        Ok(lookup(hs, SEC_WEBSOCKET_KEY.spec_bytes())->0)
    }
}

impl RequestHead {
    /// Checks the request, given what its key decodes to; on success gives the key.
    pub fn validate_with(&self, decoded: Option<Vec<u8>>) -> (r: Result<Vec<u8>, HandshakeError>)
        ensures
            match request_verdict(self.method@, self.version, self.headers@, opt_view(decoded)) {
                Ok(k) => r matches Ok(v) && v@ == k,
                Err(e) => r == Err::<Vec<u8>, HandshakeError>(e),
            },
    {
        if !bytes_eq(self.method.as_slice(), "GET".as_bytes()) {
            return Err(HandshakeError::BadMethod);
        }
        if self.version < 1 {
            return Err(HandshakeError::BadVersion);
        }
        if self.headers.get(HOST.as_bytes()).is_none() {
            return Err(HandshakeError::MissingHost);
        }
        match self.headers.get(UPGRADE.as_bytes()) {
            Some(u) => {
                if !contains_token(u.as_slice(), "websocket".as_bytes()) {
                    return Err(HandshakeError::BadUpgrade);
                }
            },
            None => {
                return Err(HandshakeError::BadUpgrade);
            },
        }
        match self.headers.get(CONNECTION.as_bytes()) {
            Some(c) => {
                if !contains_token(c.as_slice(), "upgrade".as_bytes()) {
                    return Err(HandshakeError::BadConnection);
                }
            },
            None => {
                return Err(HandshakeError::BadConnection);
            },
        }
        match self.headers.get(SEC_WEBSOCKET_VERSION.as_bytes()) {
            Some(v) => {
                if !bytes_eq(v.as_slice(), "13".as_bytes()) {
                    return Err(HandshakeError::UnsupportedVersion);
                }
            },
            None => {
                return Err(HandshakeError::UnsupportedVersion);
            },
        }
        match self.headers.get(SEC_WEBSOCKET_KEY.as_bytes()) {
            Some(k) => match decoded {
                Some(d) => {
                    if d.len() != 16 {
                        return Err(HandshakeError::BadKey);
                    }
                    Ok(k)
                },
                None => Err(HandshakeError::BadKey),
            },
            None => Err(HandshakeError::BadKey),
        }
    }

    /// Checks an opening request; on success gives the key to answer.
    pub fn validate(&self) -> (r: Result<Vec<u8>, HandshakeError>)
        ensures
            match lookup(self.headers@, SEC_WEBSOCKET_KEY.spec_bytes()) {
                Some(k) => match request_verdict(
                    self.method@,
                    self.version,
                    self.headers@,
                    base64_decoded(k),
                ) {
                    Ok(key) => r matches Ok(v) && v@ == key,
                    Err(e) => r == Err::<Vec<u8>, HandshakeError>(e),
                },
                None => match request_verdict(self.method@, self.version, self.headers@, None) {
                    Ok(key) => r matches Ok(v) && v@ == key,
                    Err(e) => r == Err::<Vec<u8>, HandshakeError>(e),
                },
            },
    {
        let decoded = match self.headers.get(SEC_WEBSOCKET_KEY.as_bytes()) {
            Some(k) => base64_decode(k.as_slice()),
            None => None,
        };
        self.validate_with(decoded)
    }
}

/// The headers of a 101 reply to the key `key`, with the chosen subprotocol
/// and extensions if any.
pub open spec fn accept_headers(
    key: Seq<u8>,
    protocol: Option<Seq<u8>>,
    extensions: Option<Seq<u8>>,
) -> HeaderModel {
    let base = seq![
        (UPGRADE.spec_bytes(), "websocket".spec_bytes()),
        (CONNECTION.spec_bytes(), "Upgrade".spec_bytes()),
        (SEC_WEBSOCKET_ACCEPT.spec_bytes(), base64_of(sha1_of(key + ACCEPT_GUID.spec_bytes()))),
    ];
    let with_protocol = match protocol {
        Some(p) => base.push((SEC_WEBSOCKET_PROTOCOL.spec_bytes(), p)),
        None => base,
    };
    match extensions {
        Some(e) => with_protocol.push((SEC_WEBSOCKET_EXTENSIONS.spec_bytes(), e)),
        None => with_protocol,
    }
}

/// An HTTP/1.1 reply with status line `status` and headers `hs`.
pub open spec fn reply_text(status: Seq<u8>, hs: HeaderModel) -> Seq<u8> {
    "HTTP/1.1 ".spec_bytes() + status + seq![13u8, 10u8] + header_lines(hs) + seq![13u8, 10u8]
}

fn reply(status: &[u8], hs: &Headers) -> (r: Vec<u8>)
    ensures
        r@ == reply_text(status@, hs@),
{
    let mut out = utf8_bytes("HTTP/1.1 ");
    let mut s = slice_to_vec(status);
    out.append(&mut s);
    out.push(13);
    out.push(10);
    write_headers(&mut out, hs);
    out.push(13);
    out.push(10);
    assert(out@ =~= reply_text(status@, hs@));
    out
}

/// The 101 reply that accepts a request with key `key`, naming the chosen
/// subprotocol and extensions if any.
pub fn accept_response(key: &[u8], protocol: Option<&[u8]>, extensions: Option<&[u8]>) -> (r: Vec<
    u8,
>)
    ensures
        r@ == reply_text(
            "101 Switching Protocols".spec_bytes(),
            accept_headers(
                key@,
                match protocol {
                    Some(p) => Some(p@),
                    None => None,
                },
                match extensions {
                    Some(e) => Some(e@),
                    None => None,
                },
            ),
        ),
{
    let ghost pv = match protocol {
        Some(p) => Some(p@),
        None => None,
    };
    let ghost ev = match extensions {
        Some(e) => Some(e@),
        None => None,
    };
    let u = (utf8_bytes(UPGRADE), utf8_bytes("websocket"));
    let c = (utf8_bytes(CONNECTION), utf8_bytes("Upgrade"));
    let a = (utf8_bytes(SEC_WEBSOCKET_ACCEPT), accept_key(key));
    let ghost uv = (u.0@, u.1@);
    let ghost cv = (c.0@, c.1@);
    let ghost av = (a.0@, a.1@);
    let mut hs = Headers { entries: vec![u, c, a] };
    assert(hs@.len() == 3);
    assert(hs@[0] == uv && hs@[1] == cv && hs@[2] == av);
    let ghost base = seq![
        (UPGRADE.spec_bytes(), "websocket".spec_bytes()),
        (CONNECTION.spec_bytes(), "Upgrade".spec_bytes()),
        (SEC_WEBSOCKET_ACCEPT.spec_bytes(), base64_of(sha1_of(key@ + ACCEPT_GUID.spec_bytes()))),
    ];
    assert(hs@ =~= base);
    match protocol {
        Some(p) => {
            let ghost before = hs.entries@;
            hs.entries.push((utf8_bytes(SEC_WEBSOCKET_PROTOCOL), slice_to_vec(p)));
            assert(hs@ =~= entry_views(before).push((SEC_WEBSOCKET_PROTOCOL.spec_bytes(), p@)));
        },
        None => {},
    }
    let ghost with_protocol = hs@;
    assert(with_protocol == match pv {
        Some(p) => base.push((SEC_WEBSOCKET_PROTOCOL.spec_bytes(), p)),
        None => base,
    });
    match extensions {
        Some(e) => {
            let ghost before = hs.entries@;
            hs.entries.push((utf8_bytes(SEC_WEBSOCKET_EXTENSIONS), slice_to_vec(e)));
            assert(hs@ =~= entry_views(before).push((SEC_WEBSOCKET_EXTENSIONS.spec_bytes(), e@)));
        },
        None => {},
    }
    assert(hs@ == accept_headers(key@, pv, ev));
    reply("101 Switching Protocols".as_bytes(), &hs)
}

/// The 426 reply to a request for a protocol version other than 13.
pub fn upgrade_required_response() -> (r: Vec<u8>)
    ensures
        r@ == reply_text(
            "426 Upgrade Required".spec_bytes(),
            seq![(SEC_WEBSOCKET_VERSION.spec_bytes(), "13".spec_bytes())],
        ),
{
    let mut hs = Headers::new();
    hs.entries.push((utf8_bytes(SEC_WEBSOCKET_VERSION), utf8_bytes("13")));
    assert(hs@ =~= seq![(SEC_WEBSOCKET_VERSION.spec_bytes(), "13".spec_bytes())]);
    reply("426 Upgrade Required".as_bytes(), &hs)
}

/// A reply that refuses the upgrade with status `status` and headers `hs`.
pub fn reject_response(status: u16, hs: &Headers) -> (r: Vec<u8>)
    ensures
        r@ == reply_text(decimal(status as nat) + seq![32u8], hs@),
{
    let mut line: Vec<u8> = Vec::new();
    push_decimal(&mut line, status);
    line.push(32);
    assert(line@ =~= decimal(status as nat) + seq![32u8]);
    reply(line.as_slice(), hs)
}

} // verus!
