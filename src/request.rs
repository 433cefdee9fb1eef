//! What the proxy decides for each inbound request: the short-circuit
//! answers, the HTTPS redirect, the choice between forwarding and
//! tunnelling, the request sent to the backend, and the status returned
//! when a step fails.

use vstd::prelude::*;

use crate::mapping::Mapping;
use crate::rewrite::{host_name, https_location, opt_str_view, redirect_location, strip_port};
use crate::text::{chars_of, has_prefix, str_eq, string_of};

verus! {

pub const STATUS_SWITCHING_PROTOCOLS: u16 = 101;

pub const STATUS_OK: u16 = 200;

pub const STATUS_MOVED_PERMANENTLY: u16 = 301;

pub const STATUS_BAD_REQUEST: u16 = 400;

pub const STATUS_NOT_FOUND: u16 = 404;

pub const STATUS_INTERNAL_SERVER_ERROR: u16 = 500;

pub const STATUS_BAD_GATEWAY: u16 = 502;

/// The health-check path, answered before any routing.
pub const HEALTH_PATH: &'static str = "/health";

/// Paths under this prefix serve ACME HTTP-01 challenge tokens.
pub const ACME_CHALLENGE_PREFIX: &'static str = "/.well-known/acme-challenge/";

/// The first step for a request, decided from its path and headers alone.
pub enum Dispatch {
    /// Answer 200 `OK`.
    Health,
    /// Answer with the key authorization stored for `token`, or 404.
    AcmeChallenge { token: String },
    /// Answer 400: the request has no usable `Host` header.
    MissingHost,
    /// Answer 301 with this `Location`.
    RedirectHttps { location: String },
    /// Route the request: look up the mapping for `host` and the path.
    Lookup { host: String },
}

/// The spec-level counterpart of `Dispatch`.
pub enum DispatchView {
    Health,
    AcmeChallenge(Seq<char>),
    MissingHost,
    RedirectHttps(Seq<char>),
    Lookup(Seq<char>),
}

impl View for Dispatch {
    type V = DispatchView;

    open spec fn view(&self) -> DispatchView {
        match self {
            Dispatch::Health => DispatchView::Health,
            Dispatch::AcmeChallenge { token } => DispatchView::AcmeChallenge(token@),
            Dispatch::MissingHost => DispatchView::MissingHost,
            Dispatch::RedirectHttps { location } => DispatchView::RedirectHttps(location@),
            Dispatch::Lookup { host } => DispatchView::Lookup(host@),
        }
    }
}

/// The first step for a request with path `path`, request target
/// `path_and_query`, `Host` header `host_header` (absent or unreadable:
/// `None`), when HTTPS is forced or not and the request arrived over HTTPS
/// or not. In order: the health check, the ACME challenge prefix, the
/// missing host, the forced redirect, then routing by the host name.
pub open spec fn dispatch_of(
    path: Seq<char>,
    path_and_query: Option<Seq<char>>,
    host_header: Option<Seq<char>>,
    force_https: bool,
    is_https: bool,
) -> DispatchView {
    if path == HEALTH_PATH@ {
        DispatchView::Health
    } else if ACME_CHALLENGE_PREFIX@.is_prefix_of(path) {
        DispatchView::AcmeChallenge(path.subrange(ACME_CHALLENGE_PREFIX@.len() as int, path.len() as int))
    } else {
        match host_header {
            None => DispatchView::MissingHost,
            Some(h) => if force_https && !is_https {
                DispatchView::RedirectHttps(https_location(host_name(h), path_and_query))
            } else {
                DispatchView::Lookup(host_name(h))
            },
        }
    }
}

/// Decides the first step for a request (see `dispatch_of`). A request
/// without a `Host` header is answered 400 whatever the mapping table
/// holds, unless it is a health check or an ACME challenge.
pub fn dispatch(
    path: &str,
    path_and_query: Option<&str>,
    host_header: Option<&str>,
    force_https: bool,
    is_https: bool,
) -> (r: Dispatch)
    ensures
        r@ == dispatch_of(path@, opt_str_view(path_and_query), opt_str_view(host_header), force_https, is_https),
        host_header is None && path@ != HEALTH_PATH@ && !ACME_CHALLENGE_PREFIX@.is_prefix_of(path@)
            ==> r is MissingHost,
{
    if str_eq(path, HEALTH_PATH) {
        return Dispatch::Health;
    }
    let cs = chars_of(path);
    let prefix = chars_of(ACME_CHALLENGE_PREFIX);
    if has_prefix(&cs, &prefix) {
        let mut token: Vec<char> = Vec::new();
        let mut k: usize = prefix.len();
        while k < cs.len()
            invariant
                prefix@.len() <= k <= cs@.len(),
                token@ == cs@.subrange(prefix@.len() as int, k as int),
            decreases cs.len() - k,
        {
            token.push(cs[k]);
            k = k + 1;
            assert(token@ =~= cs@.subrange(prefix@.len() as int, k as int));
        }
        return Dispatch::AcmeChallenge { token: string_of(&token) };
    }
    match host_header {
        None => Dispatch::MissingHost,
        Some(h) => {
            let host = strip_port(h);
            if force_https && !is_https {
                Dispatch::RedirectHttps { location: redirect_location(host.as_str(), path_and_query) }
            } else {
                Dispatch::Lookup { host }
            }
        },
    }
}

/// The second step, once the mapping table was consulted.
pub enum RouteDecision {
    /// Answer 404: no mapping routes the request.
    NotFound,
    /// Open a WebSocket tunnel to the mapping's backend.
    Tunnel(Mapping),
    /// Forward the request to the mapping's backend.
    Forward(Mapping),
}

/// A request with no mapping is answered 404; a WebSocket upgrade is
/// tunnelled; anything else is forwarded.
pub fn after_lookup(found: Option<Mapping>, websocket: bool) -> (r: RouteDecision)
    ensures
        match found {
            None => r is NotFound,
            Some(m) => if websocket {
                r matches RouteDecision::Tunnel(t) && t == m
            } else {
                r matches RouteDecision::Forward(f) && f == m
            },
        },
{
    match found {
        None => RouteDecision::NotFound,
        Some(m) => if websocket {
            RouteDecision::Tunnel(m)
        } else {
            RouteDecision::Forward(m)
        },
    }
}

/// The request is taken to have arrived over HTTPS when a proxy in front
/// said so: `X-Forwarded-Proto: https`, `X-Forwarded-Ssl: on` or
/// `Front-End-Https: on` (each header's value, when present and readable).
pub fn is_https_request(
    forwarded_proto: Option<&str>,
    forwarded_ssl: Option<&str>,
    front_end_https: Option<&str>,
) -> (r: bool)
    ensures
        r == (opt_str_view(forwarded_proto) == Some("https"@) || opt_str_view(forwarded_ssl) == Some(
            "on"@,
        ) || opt_str_view(front_end_https) == Some("on"@)),
{
    let a = match forwarded_proto {
        Some(v) => str_eq(v, "https"),
        None => false,
    };
    let b = match forwarded_ssl {
        Some(v) => str_eq(v, "on"),
        None => false,
    };
    let c = match front_end_https {
        Some(v) => str_eq(v, "on"),
        None => false,
    };
    a || b || c
}

pub open spec fn is_ascii_upper(c: char) -> bool {
    'A' <= c && c <= 'Z'
}

/// `a` and `b` are the same character once ASCII letters are lower-cased.
pub open spec fn same_ignoring_ascii_case(a: char, b: char) -> bool {
    a == b || (is_ascii_upper(a) && a as u32 + 32 == b as u32) || (is_ascii_upper(b) && b as u32
        + 32 == a as u32)
}

/// Equal up to the case of ASCII letters.
pub open spec fn eq_ignoring_ascii_case(a: Seq<char>, b: Seq<char>) -> bool {
    a.len() == b.len() && forall|i: int| 0 <= i < a.len() ==> same_ignoring_ascii_case(#[trigger] a[i], b[i])
}

fn chars_eq_ignoring_ascii_case(a: &Vec<char>, b: &Vec<char>) -> (r: bool)
    ensures
        r == eq_ignoring_ascii_case(a@, b@),
{
    if a.len() != b.len() {
        return false;
    }
    let mut i: usize = 0;
    while i < a.len()
        invariant
            i <= a.len() == b.len(),
            forall|k: int| 0 <= k < i ==> same_ignoring_ascii_case(#[trigger] a@[k], b@[k]),
        decreases a.len() - i,
    {
        let x = a[i];
        let y = b[i];
        let same = x == y || ('A' <= x && x <= 'Z' && x as u32 + 32 == y as u32) || ('A' <= y && y
            <= 'Z' && y as u32 + 32 == x as u32);
        if !same {
            return false;
        }
        i = i + 1;
    }
    true
}

/// A request asks for a WebSocket tunnel when its `Upgrade` header reads
/// `websocket`, in any case of ASCII letters.
pub fn is_websocket_upgrade(upgrade: Option<&str>) -> (r: bool)
    ensures
        r == (upgrade matches Some(u) && eq_ignoring_ascii_case(u@, "websocket"@)),
{
    match upgrade {
        Some(u) => chars_eq_ignoring_ascii_case(&chars_of(u), &chars_of("websocket")),
        None => false,
    }
}

/// A step of forwarding that can fail.
#[derive(Debug, Clone, Copy, PartialEq, Eq)]
pub enum ForwardFailure {
    /// The backend URL does not parse.
    InvalidBackendUrl,
    /// The request target for the backend does not parse.
    InvalidTarget,
    /// No TCP connection to the backend could be opened.
    Connect,
    /// The inbound request body could not be read.
    ReadRequestBody,
    /// The HTTP handshake with the backend failed.
    Handshake,
    /// Sending the request to the backend failed.
    Send,
    /// Reading the backend's response failed.
    ReadResponse,
    /// The backend did not accept a WebSocket upgrade.
    UpgradeRejected,
    /// The response to the client could not be assembled.
    BuildResponse,
}

/// The status answered when a step fails: the backend's own failures give
/// 502, an unreadable inbound body 400, and what the proxy itself could not
/// build 500.
pub open spec fn failure_status_of(f: ForwardFailure) -> u16 {
    match f {
        ForwardFailure::Connect | ForwardFailure::Send | ForwardFailure::ReadResponse
        | ForwardFailure::UpgradeRejected => STATUS_BAD_GATEWAY,
        ForwardFailure::ReadRequestBody => STATUS_BAD_REQUEST,
        ForwardFailure::InvalidBackendUrl | ForwardFailure::InvalidTarget | ForwardFailure::Handshake
        | ForwardFailure::BuildResponse => STATUS_INTERNAL_SERVER_ERROR,
    }
}

/// The status for a failed step (see `failure_status_of`); a backend port
/// with no listener gives 502.
pub fn failure_status(f: ForwardFailure) -> (r: u16)
    ensures
        r == failure_status_of(f),
        f == ForwardFailure::Connect ==> r == 502,
{
    match f {
        ForwardFailure::Connect | ForwardFailure::Send | ForwardFailure::ReadResponse
        | ForwardFailure::UpgradeRejected => STATUS_BAD_GATEWAY,
        ForwardFailure::ReadRequestBody => STATUS_BAD_REQUEST,
        ForwardFailure::InvalidBackendUrl | ForwardFailure::InvalidTarget | ForwardFailure::Handshake
        | ForwardFailure::BuildResponse => STATUS_INTERNAL_SERVER_ERROR,
    }
}

} // verus!
