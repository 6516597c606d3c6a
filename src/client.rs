//! Building the client side of the opening handshake.

use vstd::prelude::*;
use vstd::slice::slice_to_vec;
use vstd::string::StringSliceAdditionalSpecFns;
use vstd::utf8::encode_utf8;
use crate::handshake::{
    accept_key, base64_of, check_response, encode_key, read_response_head, response_verdict,
    sha1_of, HandshakeError, ResponseHead, ACCEPT_GUID, SWITCHING_PROTOCOLS, CONNECTION, HOST, ORIGIN,
    SEC_WEBSOCKET_EXTENSIONS, SEC_WEBSOCKET_KEY, SEC_WEBSOCKET_PROTOCOL, SEC_WEBSOCKET_VERSION,
    UPGRADE, parsed_response, MAX_HEADERS,
};
use crate::headers::{lookup, without, HeaderModel, Headers};

verus! {

/// Why an address cannot be used for a WebSocket connection.
#[derive(Clone, Copy, Debug, PartialEq, Eq, Structural)]
pub enum UrlError {
    /// The text is not a URL.
    Parse,
    /// The URL names no host.
    NoHost,
    /// The scheme is neither `ws` nor `wss`.
    UnknownScheme,
}

/// A parsed `ws://` or `wss://` address.
#[derive(Clone, Debug, PartialEq, Eq)]
pub struct WsUrl {
    /// `wss`, as opposed to `ws`.
    pub secure: bool,
    pub host: Option<Vec<u8>>,
    /// The port, when the URL gives one other than the scheme's default.
    pub port: Option<u16>,
    /// Path and query, which the request line names.
    pub resource: Vec<u8>,
}

/// What the URL parser makes of a text: the scheme, the host, the port when
/// it is not the scheme's default, and the path with the query.
pub uninterp spec fn url_parts(s: Seq<char>) -> Option<
    (Seq<u8>, Option<Seq<u8>>, Option<u16>, Seq<u8>),
>;

pub open spec fn opt_view(o: Option<Vec<u8>>) -> Option<Seq<u8>> {
    match o {
        Some(v) => Some(v@),
        None => None,
    }
}

/// Relies on url::Url::parse, with `scheme`, `host_str`, `port` (which is
/// `None` for the scheme's default port) and the slice from the path to the
/// end of the query.
#[verifier::external_body]
fn parse_url(s: &str) -> (r: Option<(Vec<u8>, Option<Vec<u8>>, Option<u16>, Vec<u8>)>)
    ensures
        match r {
            Some(p) => url_parts(s@) == Some((p.0@, opt_view(p.1), p.2, p.3@)),
            None => url_parts(s@) is None,
        },
{
    match url::Url::parse(s) {
        Ok(u) => Some((u.scheme().as_bytes().to_vec(), u.host_str().map(
            |h| h.as_bytes().to_vec(),
        ), u.port(),
            u[url::Position::BeforePath..url::Position::AfterQuery].as_bytes().to_vec())),
        Err(_) => None,
    }
}

pub open spec fn scheme_ws() -> Seq<u8> {
    seq![119u8, 115u8]
}

pub open spec fn scheme_wss() -> Seq<u8> {
    seq![119u8, 115u8, 115u8]
}

fn is_scheme(s: &[u8], secure: bool) -> (r: bool)
    ensures
        r == (s@ == if secure { scheme_wss() } else { scheme_ws() }),
{
    if secure {
        let r = s.len() == 3 && s[0] == 119 && s[1] == 115 && s[2] == 115;
        assert(r ==> s@ =~= scheme_wss());
        r
    } else {
        let r = s.len() == 2 && s[0] == 119 && s[1] == 115;
        assert(r ==> s@ =~= scheme_ws());
        r
    }
}

impl WsUrl {
    /// The address made of parsed parts, if the scheme is `ws` or `wss`.
    pub fn from_parts(scheme: &[u8], host: Option<Vec<u8>>, port: Option<u16>, resource: Vec<u8>) -> (r:
        Result<WsUrl, UrlError>)
        ensures
            scheme@ == scheme_ws() ==> (r matches Ok(u) && !u.secure),
            scheme@ == scheme_wss() ==> (r matches Ok(u) && u.secure),
            scheme@ != scheme_ws() && scheme@ != scheme_wss() ==> r == Err::<WsUrl, UrlError>(
                UrlError::UnknownScheme,
            ),
            r matches Ok(u) ==> u.host == host && u.port == port && u.resource == resource,
    {
        assert(scheme_ws().len() != scheme_wss().len());
        let secure = if is_scheme(scheme, false) {
            false
        } else if is_scheme(scheme, true) {
            true
        } else {
            return Err(UrlError::UnknownScheme);
        };
        Ok(WsUrl { secure, host, port, resource })
    }

    /// Parses a `ws://` or `wss://` address.
    pub fn parse(address: &str) -> (r: Result<WsUrl, UrlError>)
        ensures
            match url_parts(address@) {
                None => r == Err::<WsUrl, UrlError>(UrlError::Parse),
                Some((scheme, host, port, resource)) => {
                    &&& scheme == scheme_ws() ==> (r matches Ok(u) && !u.secure)
                    &&& scheme == scheme_wss() ==> (r matches Ok(u) && u.secure)
                    &&& scheme != scheme_ws() && scheme != scheme_wss() ==> r == Err::<
                        WsUrl,
                        UrlError,
                    >(UrlError::UnknownScheme)
                    &&& r matches Ok(u) ==> opt_view(u.host) == host && u.port == port
                        && u.resource@ == resource
                },
            },
    {
        match parse_url(address) {
            None => Err(UrlError::Parse),
            Some((scheme, host, port, resource)) => WsUrl::from_parts(
                scheme.as_slice(),
                host,
                port,
                resource,
            ),
        }
    }
}

/// The decimal digits of `n`.
pub open spec fn decimal(n: nat) -> Seq<u8>
    decreases n,
{
    if n < 10 {
        seq![(48 + n) as u8]
    } else {
        decimal(n / 10).push((48 + n % 10) as u8)
    }
}

pub(crate) fn push_decimal(dst: &mut Vec<u8>, n: u16)
    ensures
        final(dst)@ == old(dst)@ + decimal(n as nat),
    decreases n,
{
    if n < 10 {
        dst.push(48 + n as u8);
        assert(final(dst)@ =~= old(dst)@ + decimal(n as nat));
    } else {
        push_decimal(dst, n / 10);
        dst.push(48 + (n % 10) as u8);
        assert(final(dst)@ =~= old(dst)@ + decimal(n as nat));
    }
}

/// The value of the `Host` header: the host, followed by the port when the
/// URL names one other than its scheme's default.
pub open spec fn host_value(host: Seq<u8>, port: Option<u16>) -> Seq<u8> {
    match port {
        Some(p) => host + seq![58u8] + decimal(p as nat),
        None => host,
    }
}

/// `hs` with `name` set to `value` alone.
pub open spec fn with_header(hs: HeaderModel, name: Seq<u8>, value: Seq<u8>) -> HeaderModel {
    without(hs, name).push((name, value))
}

/// The elements joined by a comma and a space.
pub open spec fn join_list(items: Seq<Seq<u8>>) -> Seq<u8>
    decreases items.len(),
{
    if items.len() == 0 {
        Seq::empty()
    } else if items.len() == 1 {
        items[0]
    } else {
        join_list(items.drop_last()) + seq![44u8, 32u8] + items.last()
    }
}

fn join(items: &Vec<Vec<u8>>) -> (r: Vec<u8>)
    ensures
        r@ == join_list(items@.map_values(|v: Vec<u8>| v@)),
{
    let ghost views = items@.map_values(|v: Vec<u8>| v@);
    let n = items.len();
    let mut out: Vec<u8> = Vec::new();
    let mut i: usize = 0;
    assert(views.take(0) =~= Seq::<Seq<u8>>::empty());
    while i < n
        invariant
            i <= n,
            n == items@.len(),
            views == items@.map_values(|v: Vec<u8>| v@),
            out@ == join_list(views.take(i as int)),
        decreases n - i,
    {
        assert(views.take(i + 1).drop_last() =~= views.take(i as int));
        assert(views.take(i + 1).last() == items@[i as int]@);
        if i > 0 {
            out.push(44);
            out.push(32);
        } else {
            assert(views.take(1) =~= seq![views[0]]);
        }
        let mut piece = slice_to_vec(items[i].as_slice());
        out.append(&mut piece);
        assert(out@ =~= join_list(views.take(i + 1)));
        i = i + 1;
    }
    assert(views.take(n as int) =~= views);
    out
}

/// The bytes of a string.
pub(crate) fn utf8_bytes(s: &str) -> (r: Vec<u8>)
    ensures
        r@ == s.spec_bytes(),
{
    slice_to_vec(s.as_bytes())
}

/// A parameter of an extension: a name and an optional value.
#[derive(Clone, Debug, PartialEq, Eq)]
pub struct Parameter {
    pub name: String,
    pub value: Option<String>,
}

/// An extension offered in `Sec-WebSocket-Extensions`.
#[derive(Clone, Debug, PartialEq, Eq)]
pub struct Extension {
    pub name: String,
    pub params: Vec<Parameter>,
}

pub open spec fn param_text(p: Parameter) -> Seq<u8> {
    seq![59u8, 32u8] + encode_utf8(p.name@) + match p.value {
        Some(v) => seq![61u8] + encode_utf8(v@),
        None => Seq::empty(),
    }
}

pub open spec fn params_text(ps: Seq<Parameter>) -> Seq<u8>
    decreases ps.len(),
{
    if ps.len() == 0 {
        Seq::empty()
    } else {
        params_text(ps.drop_last()) + param_text(ps.last())
    }
}

/// An extension as it stands in the header: its name, then `; name=value`
/// for each parameter.
pub open spec fn extension_text(e: Extension) -> Seq<u8> {
    encode_utf8(e.name@) + params_text(e.params@)
}

fn write_extension(e: &Extension) -> (r: Vec<u8>)
    ensures
        r@ == extension_text(*e),
{
    let mut out = utf8_bytes(e.name.as_str());
    let n = e.params.len();
    let mut i: usize = 0;
    assert(e.params@.take(0) =~= Seq::<Parameter>::empty());
    while i < n
        invariant
            i <= n,
            n == e.params@.len(),
            out@ == encode_utf8(e.name@) + params_text(e.params@.take(i as int)),
        decreases n - i,
    {
        assert(e.params@.take(i + 1).drop_last() =~= e.params@.take(i as int));
        let p = &e.params[i];
        let ghost before = out@;
        out.push(59);
        out.push(32);
        let mut name = utf8_bytes(p.name.as_str());
        out.append(&mut name);
        match &p.value {
            Some(v) => {
                out.push(61);
                let mut vb = utf8_bytes(v.as_str());
                out.append(&mut vb);
            },
            None => {},
        }
        assert(out@ =~= before + param_text(e.params@[i as int]));
        i = i + 1;
    }
    assert(e.params@.take(n as int) =~= e.params@);
    out
}

/// The version of the WebSocket protocol that a client asks for.
#[derive(Clone, Debug, PartialEq, Eq)]
pub enum WebSocketVersion {
    WebSocket13,
    Unknown(String),
}

pub open spec fn version_text(v: WebSocketVersion) -> Seq<u8> {
    match v {
        WebSocketVersion::WebSocket13 => seq![49u8, 51u8],
        WebSocketVersion::Unknown(s) => encode_utf8(s@),
    }
}

fn write_version(v: &WebSocketVersion) -> (r: Vec<u8>)
    ensures
        r@ == version_text(*v),
{
    match v {
        WebSocketVersion::WebSocket13 => {
            let r = vec![49u8, 51u8];
            assert(r@ =~= seq![49u8, 51u8]);
            r
        },
        WebSocketVersion::Unknown(s) => utf8_bytes(s.as_str()),
    }
}


/// The headers a request carries once the handshake defaults are filled in:
/// the host, `Connection: Upgrade`, `Upgrade: websocket`, version 13 unless a
/// version was set, and the key made of `nonce` unless a key was set.
pub open spec fn request_headers(
    hs: HeaderModel,
    url: WsUrl,
    version_set: bool,
    key_set: bool,
    nonce: Seq<u8>,
) -> HeaderModel {
    let h1 = match url.host {
        Some(h) => with_header(hs, HOST.spec_bytes(), host_value(h@, url.port)),
        None => hs,
    };
    let h2 = with_header(h1, CONNECTION.spec_bytes(), "Upgrade".spec_bytes());
    let h3 = with_header(h2, UPGRADE.spec_bytes(), "websocket".spec_bytes());
    let h4 = if version_set {
        h3
    } else {
        with_header(h3, SEC_WEBSOCKET_VERSION.spec_bytes(), seq![49u8, 51u8])
    };
    if key_set {
        h4
    } else {
        with_header(h4, SEC_WEBSOCKET_KEY.spec_bytes(), base64_of(nonce))
    }
}

/// The header lines `name: value` followed by CR LF.
pub open spec fn header_lines(hs: HeaderModel) -> Seq<u8>
    decreases hs.len(),
{
    if hs.len() == 0 {
        Seq::empty()
    } else {
        header_lines(hs.drop_last()) + hs.last().0 + seq![58u8, 32u8] + hs.last().1 + seq![
            13u8,
            10u8,
        ]
    }
}

/// An HTTP/1.1 GET request for `resource` with the headers `hs`.
pub open spec fn request_text(resource: Seq<u8>, hs: HeaderModel) -> Seq<u8> {
    "GET ".spec_bytes() + resource + " HTTP/1.1\r\n".spec_bytes() + header_lines(hs) + seq![
        13u8,
        10u8,
    ]
}

pub(crate) fn write_headers(dst: &mut Vec<u8>, hs: &Headers)
    ensures
        final(dst)@ == old(dst)@ + header_lines(hs@),
{
    let n = hs.entries.len();
    let mut i: usize = 0;
    assert(hs@.take(0) =~= Seq::<(Seq<u8>, Seq<u8>)>::empty());
    assert(old(dst)@ + Seq::<u8>::empty() =~= old(dst)@);
    while i < n
        invariant
            i <= n,
            n == hs@.len(),
            dst@ == old(dst)@ + header_lines(hs@.take(i as int)),
        decreases n - i,
    {
        assert(hs@.take(i + 1).drop_last() =~= hs@.take(i as int));
        assert(hs@.take(i + 1).last() == hs@[i as int]);
        let ghost before = dst@;
        let mut name = slice_to_vec(hs.entries[i].0.as_slice());
        dst.append(&mut name);
        dst.push(58);
        dst.push(32);
        let mut value = slice_to_vec(hs.entries[i].1.as_slice());
        dst.append(&mut value);
        dst.push(13);
        dst.push(10);
        assert(dst@ =~= old(dst)@ + header_lines(hs@.take(i + 1)));
        i = i + 1;
    }
    assert(hs@.take(n as int) =~= hs@);
}

/// Builds the client's opening handshake and checks the server's reply.
#[derive(Clone, Debug)]
pub struct ClientBuilder {
    pub url: WsUrl,
    pub headers: Headers,
    pub version_set: bool,
    pub key_set: bool,
}

impl ClientBuilder {
    /// A builder for an already parsed address, with no headers set.
    pub fn from_url(url: WsUrl) -> (r: ClientBuilder)
        ensures
            r.url == url,
            r.headers@ == Seq::<(Seq<u8>, Seq<u8>)>::empty(),
            !r.version_set,
            !r.key_set,
    {
        ClientBuilder { url, headers: Headers::new(), version_set: false, key_set: false }
    }

    /// A builder for the address `address`, which must be a `ws://` or `wss://` URL.
    pub fn new(address: &str) -> (r: Result<ClientBuilder, UrlError>)
        ensures
            match url_parts(address@) {
                None => r == Err::<ClientBuilder, UrlError>(UrlError::Parse),
                Some((scheme, host, port, resource)) => {
                    &&& scheme != scheme_ws() && scheme != scheme_wss() ==> r == Err::<
                        ClientBuilder,
                        UrlError,
                    >(UrlError::UnknownScheme)
                    &&& (scheme == scheme_ws() || scheme == scheme_wss()) ==> (r matches Ok(b) && b.url.secure == (scheme == scheme_wss()) && opt_view(b.url.host) == host
                        && b.url.port == port && b.url.resource@ == resource
                        && b.headers@.len() == 0 && !b.version_set && !b.key_set)
                },
            },
    {
        match WsUrl::parse(address) {
            Ok(url) => Ok(ClientBuilder::from_url(url)),
            Err(e) => Err(e),
        }
    }

    /// Offers the subprotocols `protocols`, in order, replacing any offered before.
    pub fn add_protocols(self, protocols: Vec<&str>) -> (r: ClientBuilder)
        ensures
            r.headers@ == with_header(
                self.headers@,
                SEC_WEBSOCKET_PROTOCOL.spec_bytes(),
                join_list(protocols@.map_values(|p: &str| p.spec_bytes())),
            ),
            r.url == self.url && r.version_set == self.version_set && r.key_set == self.key_set,
    {
        let mut items: Vec<Vec<u8>> = Vec::new();
        let n = protocols.len();
        let mut i: usize = 0;
        while i < n
            invariant
                i <= n,
                n == protocols@.len(),
                items@.map_values(|v: Vec<u8>| v@) == protocols@.take(i as int).map_values(
                    |p: &str| p.spec_bytes(),
                ),
            decreases n - i,
        {
            let ghost before = items@;
            let item = utf8_bytes(protocols[i]);
            items.push(item);
            assert(items@.map_values(|v: Vec<u8>| v@) =~= before.map_values(|v: Vec<u8>| v@).push(
                item@,
            ));
            assert(protocols@.take(i + 1).map_values(|p: &str| p.spec_bytes())
                =~= protocols@.take(i as int).map_values(|p: &str| p.spec_bytes()).push(
                protocols@[i as int].spec_bytes(),
            ));
            assert(items@.map_values(|v: Vec<u8>| v@) =~= protocols@.take(i + 1).map_values(
                |p: &str| p.spec_bytes(),
            ));
            i = i + 1;
        }
        assert(protocols@.take(n as int) =~= protocols@);
        let value = join(&items);
        let mut b = self;
        b.headers.insert(SEC_WEBSOCKET_PROTOCOL.as_bytes(), value.as_slice());
        b
    }

    /// Withdraws the offered subprotocols.
    pub fn clear_protocols(self) -> (r: ClientBuilder)
        ensures
            r.headers@ == without(self.headers@, SEC_WEBSOCKET_PROTOCOL.spec_bytes()),
            r.url == self.url && r.version_set == self.version_set && r.key_set == self.key_set,
    {
        let mut b = self;
        b.headers.remove(SEC_WEBSOCKET_PROTOCOL.as_bytes());
        b
    }

    /// Offers the extensions `extensions`, in order, replacing any offered before.
    pub fn add_extensions(self, extensions: Vec<Extension>) -> (r: ClientBuilder)
        ensures
            r.headers@ == with_header(
                self.headers@,
                SEC_WEBSOCKET_EXTENSIONS.spec_bytes(),
                join_list(extensions@.map_values(|e: Extension| extension_text(e))),
            ),
            r.url == self.url && r.version_set == self.version_set && r.key_set == self.key_set,
    {
        let mut items: Vec<Vec<u8>> = Vec::new();
        let n = extensions.len();
        let mut i: usize = 0;
        while i < n
            invariant
                i <= n,
                n == extensions@.len(),
                items@.map_values(|v: Vec<u8>| v@) == extensions@.take(i as int).map_values(
                    |e: Extension| extension_text(e),
                ),
            decreases n - i,
        {
            let ghost before = items@;
            let item = write_extension(&extensions[i]);
            items.push(item);
            assert(items@.map_values(|v: Vec<u8>| v@) =~= before.map_values(|v: Vec<u8>| v@).push(
                item@,
            ));
            assert(extensions@.take(i + 1).map_values(|e: Extension| extension_text(e))
                =~= extensions@.take(i as int).map_values(|e: Extension| extension_text(e)).push(
                extension_text(extensions@[i as int]),
            ));
            assert(items@.map_values(|v: Vec<u8>| v@) =~= extensions@.take(i + 1).map_values(
                |e: Extension| extension_text(e),
            ));
            i = i + 1;
        }
        assert(extensions@.take(n as int) =~= extensions@);
        let value = join(&items);
        let mut b = self;
        b.headers.insert(SEC_WEBSOCKET_EXTENSIONS.as_bytes(), value.as_slice());
        b
    }

    /// Withdraws the offered extensions.
    pub fn clear_extensions(self) -> (r: ClientBuilder)
        ensures
            r.headers@ == without(self.headers@, SEC_WEBSOCKET_EXTENSIONS.spec_bytes()),
            r.url == self.url && r.version_set == self.version_set && r.key_set == self.key_set,
    {
        let mut b = self;
        b.headers.remove(SEC_WEBSOCKET_EXTENSIONS.as_bytes());
        b
    }

    /// Sends `key` as the `Sec-WebSocket-Key` nonce instead of a random one.
    pub fn key(self, key: [u8; 16]) -> (r: ClientBuilder)
        ensures
            r.headers@ == with_header(self.headers@, SEC_WEBSOCKET_KEY.spec_bytes(), base64_of(key@)),
            r.key_set,
            r.url == self.url && r.version_set == self.version_set,
    {
        let value = encode_key(key);
        let mut b = self;
        b.headers.insert(SEC_WEBSOCKET_KEY.as_bytes(), value.as_slice());
        b.key_set = true;
        b
    }

    /// Goes back to a random key.
    pub fn clear_key(self) -> (r: ClientBuilder)
        ensures
            r.headers@ == without(self.headers@, SEC_WEBSOCKET_KEY.spec_bytes()),
            !r.key_set,
            r.url == self.url && r.version_set == self.version_set,
    {
        let mut b = self;
        b.headers.remove(SEC_WEBSOCKET_KEY.as_bytes());
        b.key_set = false;
        b
    }

    /// Asks for protocol version `version`.
    pub fn version(self, version: WebSocketVersion) -> (r: ClientBuilder)
        ensures
            r.headers@ == with_header(
                self.headers@,
                SEC_WEBSOCKET_VERSION.spec_bytes(),
                version_text(version),
            ),
            r.version_set,
            r.url == self.url && r.key_set == self.key_set,
    {
        let value = write_version(&version);
        let mut b = self;
        b.headers.insert(SEC_WEBSOCKET_VERSION.as_bytes(), value.as_slice());
        b.version_set = true;
        b
    }

    /// Goes back to the default version, 13.
    pub fn clear_version(self) -> (r: ClientBuilder)
        ensures
            r.headers@ == without(self.headers@, SEC_WEBSOCKET_VERSION.spec_bytes()),
            !r.version_set,
            r.url == self.url && r.key_set == self.key_set,
    {
        let mut b = self;
        b.headers.remove(SEC_WEBSOCKET_VERSION.as_bytes());
        b.version_set = false;
        b
    }

    /// Sets the `Origin` header.
    pub fn origin(self, origin: String) -> (r: ClientBuilder)
        ensures
            r.headers@ == with_header(self.headers@, ORIGIN.spec_bytes(), encode_utf8(origin@)),
            r.url == self.url && r.version_set == self.version_set && r.key_set == self.key_set,
    {
        let value = utf8_bytes(origin.as_str());
        let mut b = self;
        b.headers.insert(ORIGIN.as_bytes(), value.as_slice());
        b
    }

    /// Removes the `Origin` header.
    pub fn clear_origin(self) -> (r: ClientBuilder)
        ensures
            r.headers@ == without(self.headers@, ORIGIN.spec_bytes()),
            r.url == self.url && r.version_set == self.version_set && r.key_set == self.key_set,
    {
        let mut b = self;
        b.headers.remove(ORIGIN.as_bytes());
        b
    }

    /// Sets each header of `custom_headers`, in order, each replacing the
    /// entries of its name.
    pub fn custom_headers(self, custom_headers: Headers) -> (r: ClientBuilder)
        ensures
            r.headers@ == with_headers(self.headers@, custom_headers@),
            r.url == self.url && r.version_set == self.version_set && r.key_set == self.key_set,
    {
        let mut b = self;
        let n = custom_headers.entries.len();
        let mut i: usize = 0;
        let ghost start = b.headers@;
        assert(custom_headers@.take(0) =~= Seq::<(Seq<u8>, Seq<u8>)>::empty());
        while i < n
            invariant
                i <= n,
                n == custom_headers@.len(),
                b.headers@ == with_headers(start, custom_headers@.take(i as int)),
                b.url == self.url && b.version_set == self.version_set && b.key_set
                    == self.key_set,
            decreases n - i,
        {
            assert(custom_headers@.take(i + 1).drop_last() =~= custom_headers@.take(i as int));
            b.headers.insert(
                custom_headers.entries[i].0.as_slice(),
                custom_headers.entries[i].1.as_slice(),
            );
            i = i + 1;
        }
        assert(custom_headers@.take(n as int) =~= custom_headers@);
        b
    }

    /// Removes every header named `name`.
    pub fn clear_header(self, name: &str) -> (r: ClientBuilder)
        ensures
            r.headers@ == without(self.headers@, name.spec_bytes()),
            r.url == self.url && r.version_set == self.version_set && r.key_set == self.key_set,
    {
        let mut b = self;
        b.headers.remove(name.as_bytes());
        b
    }

    /// The value of the first header named `name`.
    pub fn get_header(&self, name: &str) -> (r: Option<Vec<u8>>)
        ensures
            opt_view(r) == lookup(self.headers@, name.spec_bytes()),
    {
        self.headers.get(name.as_bytes())
    }

    /// Fills in the handshake headers, with `nonce` for the key unless one was
    /// set, and gives the resource that the request line names.
    pub fn build_request(&mut self, nonce: [u8; 16]) -> (r: Vec<u8>)
        ensures
            final(self).headers@ == request_headers(
                old(self).headers@,
                old(self).url,
                old(self).version_set,
                old(self).key_set,
                nonce@,
            ),
            r@ == old(self).url.resource@,
            final(self).url == old(self).url,
            final(self).version_set == old(self).version_set,
            final(self).key_set == old(self).key_set,
    {
        match &self.url.host {
            Some(host) => {
                let mut value = slice_to_vec(host.as_slice());
                match self.url.port {
                    Some(p) => {
                        value.push(58);
                        push_decimal(&mut value, p);
                    },
                    None => {},
                }
                assert(value@ =~= host_value(host@, self.url.port));
                self.headers.insert(HOST.as_bytes(), value.as_slice());
            },
            None => {},
        }
        self.headers.insert(CONNECTION.as_bytes(), "Upgrade".as_bytes());
        self.headers.insert(UPGRADE.as_bytes(), "websocket".as_bytes());
        if !self.version_set {
            let v: [u8; 2] = [49, 51];
            assert(v@ =~= seq![49u8, 51u8]);
            self.headers.insert(SEC_WEBSOCKET_VERSION.as_bytes(), v.as_slice());
        }
        if !self.key_set {
            let k = encode_key(nonce);
            self.headers.insert(SEC_WEBSOCKET_KEY.as_bytes(), k.as_slice());
        }
        slice_to_vec(self.url.resource.as_slice())
    }

    /// The bytes of the opening request, with `nonce` for the key unless one was set.
    pub fn request_with_nonce(&mut self, nonce: [u8; 16]) -> (r: Vec<u8>)
        ensures
            final(self).headers@ == request_headers(
                old(self).headers@,
                old(self).url,
                old(self).version_set,
                old(self).key_set,
                nonce@,
            ),
            r@ == request_text(old(self).url.resource@, final(self).headers@),
            final(self).url == old(self).url,
            final(self).version_set == old(self).version_set,
            final(self).key_set == old(self).key_set,
    {
        let resource = self.build_request(nonce);
        let mut out = utf8_bytes("GET ");
        let mut res = resource;
        out.append(&mut res);
        let mut line_end = utf8_bytes(" HTTP/1.1\r\n");
        out.append(&mut line_end);
        write_headers(&mut out, &self.headers);
        out.push(13);
        out.push(10);
        assert(out@ =~= request_text(old(self).url.resource@, self.headers@));
        out
    }

    /// The bytes of the opening request, with a fresh random key unless one was set.
    pub fn request(&mut self) -> (r: Vec<u8>)
        ensures
            exists|nonce: Seq<u8>|
                nonce.len() == 16 && final(self).headers@ == #[trigger] request_headers(
                    old(self).headers@,
                    old(self).url,
                    old(self).version_set,
                    old(self).key_set,
                    nonce,
                ),
            r@ == request_text(old(self).url.resource@, final(self).headers@),
            final(self).url == old(self).url,
            final(self).version_set == old(self).version_set,
            final(self).key_set == old(self).key_set,
    {
        let nonce: [u8; 16] = rand::random();
        self.request_with_nonce(nonce)
    }

    /// Checks the server's reply against the request this builder made.
    pub fn validate(&self, head: &ResponseHead) -> (r: Result<(), HandshakeError>)
        ensures
            head.status != SWITCHING_PROTOCOLS ==> r == Err::<(), HandshakeError>(
                HandshakeError::BadStatus,
            ),
            head.status == SWITCHING_PROTOCOLS ==> match lookup(
                self.headers@,
                SEC_WEBSOCKET_KEY.spec_bytes(),
            ) {
                None => r == Err::<(), HandshakeError>(HandshakeError::MissingKey),
                Some(k) => r == response_verdict(
                    head.status,
                    head.headers@,
                    base64_of(sha1_of(k + ACCEPT_GUID.spec_bytes())),
                    self.headers@,
                ),
            },
    {
        if head.status != SWITCHING_PROTOCOLS {
            return Err(HandshakeError::BadStatus);
        }
        match self.headers.get(SEC_WEBSOCKET_KEY.as_bytes()) {
            None => Err(HandshakeError::MissingKey),
            Some(k) => {
                let accept = accept_key(k.as_slice());
                check_response(head, accept.as_slice(), &self.headers)
            },
        }
    }

    /// Reads the reply at the start of `buf` and checks it; on success gives
    /// the reply and the length of its head, after which the frames begin.
    pub fn read_response(&self, buf: &[u8]) -> (r: Result<(ResponseHead, usize), HandshakeError>)
        ensures
            match parsed_response(buf@, MAX_HEADERS as nat) {
                None => r == Err::<(ResponseHead, usize), HandshakeError>(
                    HandshakeError::MalformedResponse,
                ),
                Some((n, status, version, hs)) => if status != SWITCHING_PROTOCOLS {
                    r == Err::<(ResponseHead, usize), HandshakeError>(HandshakeError::BadStatus)
                } else {
                    match lookup(
                    self.headers@,
                    SEC_WEBSOCKET_KEY.spec_bytes(),
                ) {
                    None => r == Err::<(ResponseHead, usize), HandshakeError>(
                        HandshakeError::MissingKey,
                    ),
                    Some(k) => match response_verdict(
                        status,
                        hs,
                        base64_of(sha1_of(k + ACCEPT_GUID.spec_bytes())),
                        self.headers@,
                    ) {
                        Ok(_) => r matches Ok((h, u)) && u == n && h.status == status
                            && h.version == version && h.headers@ == hs,
                        Err(e) => r == Err::<(ResponseHead, usize), HandshakeError>(e),
                    },
                }
                },
            },
    {
        let (head, n) = match read_response_head(buf) {
            Ok(x) => x,
            Err(e) => {
                return Err(e);
            },
        };
        match self.validate(&head) {
            Ok(()) => Ok((head, n)),
            Err(e) => Err(e),
        }
    }

    /// The host and port to connect to: the URL's port, else 443 for a secure
    /// connection and 80 otherwise, where `secure` overrides the scheme.
    pub fn extract_host_port(&self, secure: Option<bool>) -> (r: Result<(Vec<u8>, u16), UrlError>)
        ensures
            match self.url.host {
                None => r == Err::<(Vec<u8>, u16), UrlError>(UrlError::NoHost),
                Some(h) => r matches Ok((host, port)) && host@ == h@ && port == match (
                    self.url.port,
                    secure,
                ) {
                    (Some(p), _) => p,
                    (None, Some(true)) => 443u16,
                    (None, Some(false)) => 80u16,
                    (None, None) => if self.url.secure {
                        443u16
                    } else {
                        80u16
                    },
                },
            },
    {
        let port: u16 = match (self.url.port, secure) {
            (Some(p), _) => p,
            (None, Some(true)) => 443,
            (None, Some(false)) => 80,
            (None, None) => if self.url.secure {
                443
            } else {
                80
            },
        };
        match &self.url.host {
            Some(h) => Ok((slice_to_vec(h.as_slice()), port)),
            None => Err(UrlError::NoHost),
        }
    }
}

/// `hs` after setting each entry of `more`, in order.
pub open spec fn with_headers(hs: HeaderModel, more: HeaderModel) -> HeaderModel
    decreases more.len(),
{
    if more.len() == 0 {
        hs
    } else {
        with_header(with_headers(hs, more.drop_last()), more.last().0, more.last().1)
    }
}

} // verus!
