//! The request sent to a backend: where it goes, the request target, the
//! headers it carries, and the hand-written upgrade request of a WebSocket
//! tunnel.

use vstd::prelude::*;
use vstd::utf8::encode_utf8;

use crate::mapping::{opt_view, Mapping};
use crate::request::ForwardFailure;
use crate::rewrite::{backend_url, build_backend_url, opt_str_view, rewritten, rewrite_path};
use crate::text::{chars_of, push_str, str_eq, string_of};

verus! {

/// What `url::Url::parse` gives for a text: `None` when it does not parse,
/// else the URL's host (if any), its explicit non-default port (if any) and
/// its lower-cased scheme.
pub uninterp spec fn url_parts(s: Seq<char>) -> Option<(Option<Seq<char>>, Option<u16>, Seq<char>)>;

/// Relies on `url::Url::parse`, read back through `host_str`, `port` and
/// `scheme`: the parts depend on the text alone.
#[verifier::external_body]
fn parse_url(s: &str) -> (r: Option<(Option<String>, Option<u16>, String)>)
    ensures
        match r {
            None => url_parts(s@) is None,
            Some((h, p, sch)) => url_parts(s@) == Some((opt_view(h), p, sch@)),
        },
{
    match url::Url::parse(s) {
        Ok(u) => Some((u.host_str().map(|h| h.to_string()), u.port(), u.scheme().to_string())),
        Err(_) => None,
    }
}

/// The socket address to dial for a parsed backend URL: its host, or
/// `localhost`; its port, or the default: 443 for `https`, 80 otherwise.
/// Forwarding and WebSocket tunnels resolve their target the same way.
pub open spec fn dial_address(host: Option<Seq<char>>, port: Option<u16>, scheme: Seq<char>) -> (Seq<char>, u16) {
    let h = match host {
        Some(h) => h,
        None => "localhost"@,
    };
    let p = match port {
        Some(p) => p,
        None => if scheme == "https"@ {
            443u16
        } else {
            80u16
        },
    };
    (h, p)
}

/// Picks the address to dial from the parts of a backend URL (see
/// `dial_address`).
pub fn address_from_parts(host: Option<&str>, port: Option<u16>, scheme: &str) -> (r: (String, u16))
    ensures
        (r.0@, r.1) == dial_address(opt_str_view(host), port, scheme@),
{
    let h = match host {
        Some(h) => h.to_owned(),
        None => "localhost".to_owned(),
    };
    let p = match port {
        Some(p) => p,
        None => if str_eq(scheme, "https") {
            443u16
        } else {
            80u16
        },
    };
    (h, p)
}

/// Where and what to send for one proxied request.
pub struct BackendTarget {
    /// The full backend URL (`build_backend_url`).
    pub url: String,
    /// The host to dial.
    pub host: String,
    /// The port to dial.
    pub port: u16,
    /// The request target: the rewritten path and the query.
    pub target: String,
}

/// The rewritten path followed by `?query` when the request has a query.
pub open spec fn request_target_of(path: Seq<char>, front: Seq<char>, back: Seq<char>, query: Option<Seq<char>>) -> Seq<char> {
    match query {
        Some(q) => rewritten(path, front, back) + seq!['?'] + q,
        None => rewritten(path, front, back),
    }
}

/// The request target sent to the backend (see `request_target_of`).
pub fn request_target(mapping: &Mapping, path: &str, query: Option<&str>) -> (r: String)
    ensures
        r@ == request_target_of(path@, mapping.front_uri@, mapping.back_uri@, opt_str_view(query)),
{
    let rewritten_path = rewrite_path(path, mapping);
    match query {
        Some(q) => {
            let mut out = chars_of(rewritten_path.as_str());
            out.push('?');
            push_str(&mut out, q);
            string_of(&out)
        },
        None => rewritten_path,
    }
}

/// Resolves where a request routed by `mapping` goes: the backend URL is
/// built and parsed, the address to dial taken from it, and the request
/// target computed. Fails with `InvalidBackendUrl` exactly when the URL
/// does not parse.
pub fn backend_target(mapping: &Mapping, path: &str, query: Option<&str>) -> (r: Result<BackendTarget, ForwardFailure>)
    ensures
        ({
            let url = backend_url(
                opt_view(mapping.backend),
                mapping.back_port,
                path@,
                mapping.front_uri@,
                mapping.back_uri@,
                opt_str_view(query),
            );
            match url_parts(url) {
                None => r == Err::<BackendTarget, ForwardFailure>(ForwardFailure::InvalidBackendUrl),
                Some((h, p, sch)) => r matches Ok(t) && {
                    &&& t.url@ == url
                    &&& (t.host@, t.port) == dial_address(h, p, sch)
                    &&& t.target@ == request_target_of(path@, mapping.front_uri@, mapping.back_uri@, opt_str_view(query))
                },
            }
        }),
{
    let url = build_backend_url(mapping, path, query);
    match parse_url(url.as_str()) {
        None => Err(ForwardFailure::InvalidBackendUrl),
        Some((h, p, sch)) => {
            let host_ref: Option<&str> = match &h {
                Some(x) => Some(x.as_str()),
                None => None,
            };
            let (host, port) = address_from_parts(host_ref, p, sch.as_str());
            let target = request_target(mapping, path, query);
            Ok(BackendTarget { url, host, port, target })
        },
    }
}

/// A request header: its name in lower case, as HTTP libraries give it, and
/// its raw value.
pub struct Header {
    pub name: String,
    pub value: Vec<u8>,
}

pub struct HeaderView {
    pub name: Seq<char>,
    pub value: Seq<u8>,
}

impl View for Header {
    type V = HeaderView;

    open spec fn view(&self) -> HeaderView {
        HeaderView { name: self.name@, value: self.value@ }
    }
}

pub open spec fn headers_view(hs: Seq<Header>) -> Seq<HeaderView> {
    hs.map_values(|h: Header| h@)
}

/// The headers other than `Host`, in order.
pub open spec fn without_host(hs: Seq<HeaderView>) -> Seq<HeaderView>
    decreases hs.len(),
{
    if hs.len() == 0 {
        hs
    } else if hs.last().name == "host"@ {
        without_host(hs.drop_last())
    } else {
        without_host(hs.drop_last()).push(hs.last())
    }
}

/// `http` or `https`, as the `X-Forwarded-Proto` value.
pub open spec fn proto_name(is_https: bool) -> Seq<char> {
    if is_https {
        "https"@
    } else {
        "http"@
    }
}

/// The headers of the forwarded request: every client header but `Host`,
/// then `Host` set to the client-facing host, `X-Forwarded-For` (the
/// client's address), `X-Forwarded-Host` and `X-Forwarded-Proto`.
pub open spec fn forwarded_headers(hs: Seq<HeaderView>, host: Seq<char>, client_ip: Seq<char>, is_https: bool) -> Seq<HeaderView> {
    without_host(hs) + seq![
        HeaderView { name: "host"@, value: encode_utf8(host) },
        HeaderView { name: "x-forwarded-for"@, value: encode_utf8(client_ip) },
        HeaderView { name: "x-forwarded-host"@, value: encode_utf8(host) },
        HeaderView { name: "x-forwarded-proto"@, value: encode_utf8(proto_name(is_https)) },
    ]
}

fn push_text(out: &mut Vec<u8>, s: &str)
    ensures
        final(out)@ == old(out)@ + encode_utf8(s@),
{
    let b = s.as_bytes();
    let mut i: usize = 0;
    while i < b.len()
        invariant
            i <= b@.len(),
            b@ == encode_utf8(s@),
            out@ == old(out)@ + b@.subrange(0, i as int),
        decreases b.len() - i,
    {
        out.push(b[i]);
        i = i + 1;
        assert(out@ =~= old(out)@ + b@.subrange(0, i as int));
    }
    assert(b@.subrange(0, b@.len() as int) =~= b@);
}

fn push_raw(out: &mut Vec<u8>, v: &Vec<u8>)
    ensures
        final(out)@ == old(out)@ + v@,
{
    let mut i: usize = 0;
    while i < v.len()
        invariant
            i <= v@.len(),
            out@ == old(out)@ + v@.subrange(0, i as int),
        decreases v.len() - i,
    {
        out.push(v[i]);
        i = i + 1;
        assert(out@ =~= old(out)@ + v@.subrange(0, i as int));
    }
    assert(v@.subrange(0, v@.len() as int) =~= v@);
}

fn text_bytes(s: &str) -> (r: Vec<u8>)
    ensures
        r@ == encode_utf8(s@),
{
    let mut out: Vec<u8> = Vec::new();
    push_text(&mut out, s);
    assert(out@ =~= encode_utf8(s@));
    out
}

fn header(name: &str, value: &str) -> (r: Header)
    ensures
        r@ == (HeaderView { name: name@, value: encode_utf8(value@) }),
{
    Header { name: name.to_owned(), value: text_bytes(value) }
}

fn copy_bytes(v: &Vec<u8>) -> (r: Vec<u8>)
    ensures
        r@ == v@,
{
    let mut out: Vec<u8> = Vec::new();
    push_raw(&mut out, v);
    assert(out@ =~= v@);
    out
}

/// The headers for the request sent to the backend (see
/// `forwarded_headers`).
pub fn forward_headers(headers: &Vec<Header>, client_host: &str, client_ip: &str, is_https: bool) -> (r: Vec<Header>)
    ensures
        headers_view(r@) == forwarded_headers(headers_view(headers@), client_host@, client_ip@, is_https),
{
    let ghost hv = headers_view(headers@);
    let mut out: Vec<Header> = Vec::new();
    let mut i: usize = 0;
    assert(hv.subrange(0, 0) =~= Seq::<HeaderView>::empty());
    while i < headers.len()
        invariant
            i <= headers@.len(),
            hv == headers_view(headers@),
            headers_view(out@) == without_host(hv.subrange(0, i as int)),
        decreases headers.len() - i,
    {
        let h = &headers[i];
        assert(hv[i as int] == h@);
        assert(hv.subrange(0, i + 1).drop_last() =~= hv.subrange(0, i as int));
        if !str_eq(h.name.as_str(), "host") {
            let ghost prev = out@;
            out.push(Header { name: h.name.clone(), value: copy_bytes(&h.value) });
            assert(headers_view(out@) =~= headers_view(prev).push(h@));
        }
        i = i + 1;
    }
    assert(hv.subrange(0, hv.len() as int) =~= hv);
    let proto = if is_https {
        "https"
    } else {
        "http"
    };
    let ghost base = out@;
    out.push(header("host", client_host));
    out.push(header("x-forwarded-for", client_ip));
    out.push(header("x-forwarded-host", client_host));
    out.push(header("x-forwarded-proto", proto));
    assert(headers_view(out@) =~= forwarded_headers(hv, client_host@, client_ip@, is_https));
    out
}

/// A byte that may stand in a header value that reads as text: visible
/// ASCII or a tab.
pub open spec fn is_visible(b: u8) -> bool {
    (32 <= b && b < 127) || b == 9
}

pub open spec fn all_visible(v: Seq<u8>) -> bool {
    forall|i: int| 0 <= i < v.len() ==> is_visible(#[trigger] v[i])
}

pub open spec fn crlf() -> Seq<u8> {
    encode_utf8("\r\n"@)
}

/// The header lines of the upgrade request: `name: value` for every client
/// header but `Host` whose value reads as text.
pub open spec fn header_lines(hs: Seq<HeaderView>) -> Seq<u8>
    decreases hs.len(),
{
    if hs.len() == 0 {
        Seq::empty()
    } else {
        let prev = header_lines(hs.drop_last());
        let h = hs.last();
        if h.name != "host"@ && all_visible(h.value) {
            prev + encode_utf8(h.name) + encode_utf8(": "@) + h.value + crlf()
        } else {
            prev
        }
    }
}

/// The upgrade request written to the backend socket: the request line and
/// `Host`, the client's header lines, the three forwarding headers and an
/// empty line.
pub open spec fn upgrade_request_of(
    target: Seq<char>,
    host: Seq<char>,
    hs: Seq<HeaderView>,
    client_ip: Seq<char>,
    is_https: bool,
) -> Seq<u8> {
    encode_utf8("GET "@) + encode_utf8(target) + encode_utf8(" HTTP/1.1\r\nHost: "@) + encode_utf8(host)
        + crlf() + header_lines(hs) + encode_utf8("X-Forwarded-For: "@) + encode_utf8(client_ip) + crlf()
        + encode_utf8("X-Forwarded-Host: "@) + encode_utf8(host) + crlf() + encode_utf8(
        "X-Forwarded-Proto: "@,
    ) + encode_utf8(proto_name(is_https)) + crlf() + crlf()
}

fn visible_bytes(v: &Vec<u8>) -> (r: bool)
    ensures
        r == all_visible(v@),
{
    let mut i: usize = 0;
    while i < v.len()
        invariant
            i <= v@.len(),
            forall|k: int| 0 <= k < i ==> is_visible(#[trigger] v@[k]),
        decreases v.len() - i,
    {
        let b = v[i];
        if !((32 <= b && b < 127) || b == 9) {
            return false;
        }
        i = i + 1;
    }
    true
}

/// Writes the upgrade request for a WebSocket tunnel (see
/// `upgrade_request_of`).
pub fn upgrade_request(target: &str, client_host: &str, headers: &Vec<Header>, client_ip: &str, is_https: bool) -> (r: Vec<u8>)
    ensures
        r@ == upgrade_request_of(target@, client_host@, headers_view(headers@), client_ip@, is_https),
{
    let ghost hv = headers_view(headers@);
    let mut out: Vec<u8> = Vec::new();
    push_text(&mut out, "GET ");
    push_text(&mut out, target);
    push_text(&mut out, " HTTP/1.1\r\nHost: ");
    push_text(&mut out, client_host);
    push_text(&mut out, "\r\n");
    let ghost head = out@;
    let mut i: usize = 0;
    assert(hv.subrange(0, 0) =~= Seq::<HeaderView>::empty());
    assert(out@ =~= head + header_lines(hv.subrange(0, 0)));
    while i < headers.len()
        invariant
            i <= headers@.len(),
            hv == headers_view(headers@),
            out@ == head + header_lines(hv.subrange(0, i as int)),
        decreases headers.len() - i,
    {
        let h = &headers[i];
        assert(hv[i as int] == h@);
        assert(hv.subrange(0, i + 1).drop_last() =~= hv.subrange(0, i as int));
        if !str_eq(h.name.as_str(), "host") && visible_bytes(&h.value) {
            let ghost prev = out@;
            push_text(&mut out, h.name.as_str());
            push_text(&mut out, ": ");
            push_raw(&mut out, &h.value);
            push_text(&mut out, "\r\n");
            assert(out@ =~= head + header_lines(hv.subrange(0, i + 1)));
        }
        i = i + 1;
    }
    assert(hv.subrange(0, hv.len() as int) =~= hv);
    push_text(&mut out, "X-Forwarded-For: ");
    push_text(&mut out, client_ip);
    push_text(&mut out, "\r\n");
    push_text(&mut out, "X-Forwarded-Host: ");
    push_text(&mut out, client_host);
    push_text(&mut out, "\r\n");
    push_text(&mut out, "X-Forwarded-Proto: ");
    if is_https {
        push_text(&mut out, "https");
    } else {
        push_text(&mut out, "http");
    }
    push_text(&mut out, "\r\n");
    push_text(&mut out, "\r\n");
    assert(out@ =~= upgrade_request_of(target@, client_host@, hv, client_ip@, is_https));
    out
}

/// The status line of a response: the bytes before the first line feed,
/// or all of them when there is none.
pub open spec fn status_line(v: Seq<u8>) -> Seq<u8>
    decreases v.len(),
{
    if v.len() == 0 || v[0] == 10u8 {
        Seq::empty()
    } else {
        seq![v[0]] + status_line(v.drop_first())
    }
}

/// The bytes `101` stand somewhere in `v`.
pub open spec fn holds_101(v: Seq<u8>) -> bool {
    exists|i: int| 0 <= i && i + 3 <= v.len() && v[i] == 49u8 && #[trigger] v[i + 1] == 48u8 && v[i + 2] == 49u8
}

fn status_line_of(v: &Vec<u8>) -> (r: Vec<u8>)
    ensures
        r@ == status_line(v@),
{
    let n = v.len();
    let mut i: usize = 0;
    assert(v@.subrange(0, n as int) =~= v@);
    while i < n && v[i] != 10u8
        invariant
            i <= n == v@.len(),
            status_line(v@) == v@.subrange(0, i as int) + status_line(v@.subrange(i as int, n as int)),
        decreases n - i,
    {
        assert(v@.subrange(i as int, n as int).drop_first() =~= v@.subrange(i + 1, n as int));
        assert(v@.subrange(0, i + 1) =~= v@.subrange(0, i as int) + seq![v@[i as int]]);
        i = i + 1;
    }
    assert(status_line(v@.subrange(i as int, n as int)) =~= Seq::<u8>::empty());
    assert(v@.subrange(0, i as int) + Seq::<u8>::empty() =~= v@.subrange(0, i as int));
    let mut out: Vec<u8> = Vec::new();
    let mut k: usize = 0;
    while k < i
        invariant
            k <= i <= n == v@.len(),
            out@ == v@.subrange(0, k as int),
        decreases i - k,
    {
        out.push(v[k]);
        k = k + 1;
        assert(out@ =~= v@.subrange(0, k as int));
    }
    out
}

fn contains_101(response: &Vec<u8>) -> (r: bool)
    ensures
        r == holds_101(response@),
{
    let n = response.len();
    if n < 3 {
        return false;
    }
    let mut i: usize = 0;
    while i <= n - 3
        invariant
            n == response@.len(),
            n >= 3,
            i <= n - 2,
            forall|k: int| 0 <= k < i ==> !(response@[k] == 49u8 && #[trigger] response@[k + 1] == 48u8
                && response@[k + 2] == 49u8),
        decreases n - i,
    {
        if response[i] == 49u8 && response[i + 1] == 48u8 && response[i + 2] == 49u8 {
            return true;
        }
        i = i + 1;
    }
    false
}

/// Whether the backend's first response bytes accept the upgrade: its
/// status line must contain `101`.
pub fn upgrade_accepted(response: &Vec<u8>) -> (r: bool)
    ensures
        r == holds_101(status_line(response@)),
{
    contains_101(&status_line_of(response))
}

/// The response head ends at `i`: `\r\n\r\n` stands there.
pub open spec fn head_end_at(v: Seq<u8>, i: int) -> bool {
    0 <= i && i + 4 <= v.len() && v[i] == 13u8 && v[i + 1] == 10u8 && v[i + 2] == 13u8 && v[i + 3] == 10u8
}

/// The bytes after the end of the response head (the first `\r\n\r\n`):
/// data the backend sent right after accepting the upgrade, which belong to
/// the tunnel. Empty when the head does not end in `v`.
pub fn bytes_after_head(v: &Vec<u8>) -> (r: Vec<u8>)
    ensures
        (exists|i: int|
            head_end_at(v@, i) && (forall|j: int| 0 <= j < i ==> !head_end_at(v@, j)) && r@ == v@.subrange(
                i + 4,
                v@.len() as int,
            )) || ((forall|j: int| !head_end_at(v@, j)) && r@.len() == 0),
{
    let n = v.len();
    let mut i: usize = 0;
    while n >= 4 && i <= n - 4
        invariant
            n == v@.len(),
            i <= n,
            forall|j: int| 0 <= j < i ==> !head_end_at(v@, j),
        decreases n - i,
    {
        if v[i] == 13u8 && v[i + 1] == 10u8 && v[i + 2] == 13u8 && v[i + 3] == 10u8 {
            let mut out: Vec<u8> = Vec::new();
            let mut k: usize = i + 4;
            while k < n
                invariant
                    i + 4 <= k <= n,
                    n == v@.len(),
                    out@ == v@.subrange(i + 4, k as int),
                decreases n - k,
            {
                out.push(v[k]);
                k = k + 1;
                assert(out@ =~= v@.subrange(i + 4, k as int));
            }
            assert(head_end_at(v@, i as int));
            return out;
        }
        i = i + 1;
    }
    assert forall|j: int| !head_end_at(v@, j) by {
        if 0 <= j && j < i {
        }
    }
    Vec::new()
}

} // verus!
