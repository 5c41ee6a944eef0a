//! The decisions of the proxy handler and of configuration reloads: which
//! headers travel, how long to wait, what a failure is answered, and whether
//! a freshly loaded configuration replaces the running one.
use crate::config::{
    best_route, route_matches, upstream_outcome, BindAddr, GatewayConfig, RouteConfig, UrlError,
};
use crate::route_headers::RouteHeaders;
use crate::text::str_eq;
use vstd::prelude::*;
use vstd::utf8::encode_utf8;

verus! {

/// Hop-by-hop headers, which are never forwarded (names as `HeaderName`
/// spells them: lower case).
pub open spec fn is_hop_header(name: Seq<char>) -> bool {
    ||| name == "host"@
    ||| name == "connection"@
    ||| name == "proxy-authenticate"@
    ||| name == "proxy-authorization"@
    ||| name == "te"@
    ||| name == "trailer"@
    ||| name == "transfer-encoding"@
    ||| name == "upgrade"@
}

/// Whether a header with this (lower-case) name is passed on.
pub fn should_forward_header(name: &str) -> (r: bool)
    ensures
        r == !is_hop_header(name@),
{
    !(str_eq(name, "host") || str_eq(name, "connection") || str_eq(name, "proxy-authenticate")
        || str_eq(name, "proxy-authorization") || str_eq(name, "te") || str_eq(name, "trailer")
        || str_eq(name, "transfer-encoding") || str_eq(name, "upgrade"))
}

/// A header as (name, value bytes).
pub type Header = (String, Vec<u8>);

pub open spec fn header_view(h: Header) -> (Seq<char>, Seq<u8>) {
    (h.0@, h.1@)
}

/// The headers of `hs` that are not hop-by-hop, in order.
pub open spec fn end_to_end(hs: Seq<(Seq<char>, Seq<u8>)>) -> Seq<(Seq<char>, Seq<u8>)>
    decreases hs.len(),
{
    if hs.len() == 0 {
        hs
    } else if is_hop_header(hs.last().0) {
        end_to_end(hs.drop_last())
    } else {
        end_to_end(hs.drop_last()).push(hs.last())
    }
}

/// No hop-by-hop header is passed on, and every end-to-end one is.
pub proof fn lemma_end_to_end(hs: Seq<(Seq<char>, Seq<u8>)>)
    ensures
        forall|i: int|
            0 <= i < end_to_end(hs).len() ==> !is_hop_header(#[trigger] end_to_end(hs)[i].0),
        forall|j: int|
            0 <= j < hs.len() && !is_hop_header(hs[j].0) ==> end_to_end(hs).contains(
                #[trigger] hs[j],
            ),
    decreases hs.len(),
{
    if hs.len() > 0 {
        let init = hs.drop_last();
        lemma_end_to_end(init);
        let e = end_to_end(hs);
        assert forall|j: int| 0 <= j < hs.len() && !is_hop_header(hs[j].0) implies e.contains(
            #[trigger] hs[j],
        ) by {
            if j < hs.len() - 1 {
                assert(hs[j] == init[j]);
                let k = choose|k: int| 0 <= k < end_to_end(init).len() && end_to_end(init)[k] == init[j];
                if !is_hop_header(hs.last().0) {
                    assert(e[k] == end_to_end(init)[k]);
                }
            } else {
                assert(e[e.len() - 1] == hs.last());
            }
        }
        assert forall|i: int| 0 <= i < e.len() implies !is_hop_header(#[trigger] e[i].0) by {
            if i < end_to_end(init).len() {
                assert(e[i] == end_to_end(init)[i]);
            }
        }
    }
}

/// The headers passed on are the request's headers, in their order, less
/// those named `host`, `connection`, `proxy-authenticate`,
/// `proxy-authorization`, `te`, `trailer`, `transfer-encoding` or `upgrade`;
/// a header of any other name (a cookie, an authorization) is kept.
pub proof fn lemma_end_to_end_drops_only_hop_names(hs: Seq<(Seq<char>, Seq<u8>)>)
    ensures
        end_to_end(hs) == hs.filter(
            |h: (Seq<char>, Seq<u8>)|
                !(h.0 == "host"@ || h.0 == "connection"@ || h.0 == "proxy-authenticate"@ || h.0
                    == "proxy-authorization"@ || h.0 == "te"@ || h.0 == "trailer"@ || h.0
                    == "transfer-encoding"@ || h.0 == "upgrade"@),
        ),
    decreases hs.len(),
{
    let keep = |h: (Seq<char>, Seq<u8>)|
        !(h.0 == "host"@ || h.0 == "connection"@ || h.0 == "proxy-authenticate"@ || h.0
            == "proxy-authorization"@ || h.0 == "te"@ || h.0 == "trailer"@ || h.0
            == "transfer-encoding"@ || h.0 == "upgrade"@);
    reveal(Seq::filter);
    if hs.len() > 0 {
        lemma_end_to_end_drops_only_hop_names(hs.drop_last());
        assert(keep(hs.last()) == !is_hop_header(hs.last().0));
    }
}

/// A request none of whose headers carries one of those eight names has all
/// its headers passed on, unchanged and in order.
pub proof fn lemma_end_to_end_keeps_other_headers(hs: Seq<(Seq<char>, Seq<u8>)>)
    requires
        forall|i: int|
            0 <= i < hs.len() ==> !(#[trigger] hs[i].0 == "host"@ || hs[i].0 == "connection"@
                || hs[i].0 == "proxy-authenticate"@ || hs[i].0 == "proxy-authorization"@ || hs[i].0
                == "te"@ || hs[i].0 == "trailer"@ || hs[i].0 == "transfer-encoding"@ || hs[i].0
                == "upgrade"@),
    ensures
        end_to_end(hs) == hs,
    decreases hs.len(),
{
    if hs.len() > 0 {
        let init = hs.drop_last();
        assert forall|i: int| 0 <= i < init.len() implies !(#[trigger] init[i].0 == "host"@
            || init[i].0 == "connection"@ || init[i].0 == "proxy-authenticate"@ || init[i].0
            == "proxy-authorization"@ || init[i].0 == "te"@ || init[i].0 == "trailer"@
            || init[i].0 == "transfer-encoding"@ || init[i].0 == "upgrade"@) by {
            assert(init[i] == hs[i]);
        }
        lemma_end_to_end_keeps_other_headers(init);
        assert(hs.last() == hs[hs.len() - 1]);
        assert(init.push(hs.last()) =~= hs);
    }
}

/// A route's extra headers, values as UTF-8 bytes.
pub open spec fn route_header_views(pairs: Seq<(Seq<char>, Seq<char>)>) -> Seq<
    (Seq<char>, Seq<u8>),
> {
    pairs.map_values(|p: (Seq<char>, Seq<char>)| (p.0, encode_utf8(p.1)))
}

fn copy_bytes(v: &Vec<u8>) -> (r: Vec<u8>)
    ensures
        r@ == v@,
{
    let mut r: Vec<u8> = Vec::new();
    let mut i: usize = 0;
    while i < v.len()
        invariant
            i <= v.len(),
            r@ == v@.take(i as int),
        decreases v.len() - i,
    {
        r.push(v[i]);
        assert(v@.take(i + 1) == v@.take(i as int).push(v@[i as int]));
        i = i + 1;
    }
    assert(v@.take(v.len() as int) == v@);
    r
}

/// The headers of `headers` that are passed on, in order.
pub fn forwarded_headers(headers: &Vec<Header>) -> (r: Vec<Header>)
    ensures
        r@.map_values(|h: Header| header_view(h)) == end_to_end(
            headers@.map_values(|h: Header| header_view(h)),
        ),
{
    let ghost hv = headers@.map_values(|h: Header| header_view(h));
    let mut r: Vec<Header> = Vec::new();
    let mut i: usize = 0;
    while i < headers.len()
        invariant
            i <= headers.len(),
            hv == headers@.map_values(|h: Header| header_view(h)),
            r@.map_values(|h: Header| header_view(h)) == end_to_end(hv.take(i as int)),
        decreases headers.len() - i,
    {
        let ghost before = r@.map_values(|h: Header| header_view(h));
        assert(hv.take(i + 1).drop_last() == hv.take(i as int));
        assert(hv.take(i + 1).last() == header_view(headers@[i as int]));
        if should_forward_header(headers[i].0.as_str()) {
            let h = (headers[i].0.clone(), copy_bytes(&headers[i].1));
            r.push(h);
            assert(r@.map_values(|h: Header| header_view(h)) == before.push(
                header_view(headers@[i as int]),
            ));
        }
        i = i + 1;
    }
    assert(hv.take(headers.len() as int) == hv);
    r
}

/// The headers sent upstream: the request's end-to-end headers, then the
/// route's extra headers.
pub fn upstream_request_headers(incoming: &Vec<Header>, route: &RouteConfig) -> (r: Vec<Header>)
    ensures
        r@.map_values(|h: Header| header_view(h)) == end_to_end(
            incoming@.map_values(|h: Header| header_view(h)),
        ) + route_header_views(route.headers.pairs()),
{
    let mut r = forwarded_headers(incoming);
    let ghost first = r@.map_values(|h: Header| header_view(h));
    let extra: &RouteHeaders = &route.headers;
    let n = extra.len();
    let mut i: usize = 0;
    while i < n
        invariant
            i <= n == extra.pairs().len(),
            r@.map_values(|h: Header| header_view(h)) == first + route_header_views(
                extra.pairs().take(i as int),
            ),
        decreases n - i,
    {
        let ghost before = r@.map_values(|h: Header| header_view(h));
        let (name, value) = extra.entry(i);
        let h = (name.clone(), value.as_str().as_bytes_vec());
        r.push(h);
        assert(route_header_views(extra.pairs().take(i + 1)) == route_header_views(
            extra.pairs().take(i as int),
        ).push((extra.pairs()[i as int].0, encode_utf8(extra.pairs()[i as int].1))));
        assert(r@.map_values(|h: Header| header_view(h)) == before.push(header_view(h)));
        i = i + 1;
    }
    assert(extra.pairs().take(n as int) == extra.pairs());
    r
}

/// How long to wait for the upstream, in milliseconds: the route's own
/// timeout, else the server's.
pub fn route_timeout_ms(route: &RouteConfig, default_timeout_ms: u64) -> (t: u64)
    ensures
        t == match route.timeout_ms {
            Some(ms) => ms,
            None => default_timeout_ms,
        },
{
    match route.timeout_ms {
        Some(ms) => ms,
        None => default_timeout_ms,
    }
}

/// Why a proxied request is answered by the gateway itself.
#[derive(Clone, Copy, Debug, PartialEq, Eq, Structural)]
pub enum ProxyFailure {
    NoRoute,
    BodyTooLarge,
    InvalidUpstream,
    UpstreamFailed,
    UpstreamTimeout,
    UpstreamBodyUnreadable,
    ResponseBuild,
}

pub open spec fn failure_status(f: ProxyFailure) -> u16 {
    match f {
        ProxyFailure::NoRoute => 404,
        ProxyFailure::BodyTooLarge => 413,
        ProxyFailure::UpstreamTimeout => 504,
        _ => 502,
    }
}

pub open spec fn failure_text(f: ProxyFailure) -> Seq<char> {
    match f {
        ProxyFailure::NoRoute => "no route matches this path"@,
        ProxyFailure::BodyTooLarge => "request body too large"@,
        ProxyFailure::InvalidUpstream => "invalid upstream url"@,
        ProxyFailure::UpstreamFailed => "upstream request failed"@,
        ProxyFailure::UpstreamTimeout => "upstream request timed out"@,
        ProxyFailure::UpstreamBodyUnreadable => "failed to read upstream response body"@,
        ProxyFailure::ResponseBuild => "failed to build response"@,
    }
}

impl ProxyFailure {
    /// The HTTP status code of the answer.
    pub fn status(&self) -> (s: u16)
        ensures
            s == failure_status(*self),
    {
        match self {
            ProxyFailure::NoRoute => 404,
            ProxyFailure::BodyTooLarge => 413,
            ProxyFailure::UpstreamTimeout => 504,
            _ => 502,
        }
    }

    /// The body of the answer.
    pub fn message(&self) -> (m: &'static str)
        ensures
            m@ == failure_text(*self),
    {
        match self {
            ProxyFailure::NoRoute => "no route matches this path",
            ProxyFailure::BodyTooLarge => "request body too large",
            ProxyFailure::InvalidUpstream => "invalid upstream url",
            ProxyFailure::UpstreamFailed => "upstream request failed",
            ProxyFailure::UpstreamTimeout => "upstream request timed out",
            ProxyFailure::UpstreamBodyUnreadable => "failed to read upstream response body",
            ProxyFailure::ResponseBuild => "failed to build response",
        }
    }
}

/// What the gateway does with a request once a route has been chosen.
#[derive(Debug)]
pub struct ForwardPlan {
    /// Position of the route in the configuration.
    pub route_index: usize,
    /// Largest request body that is read.
    pub max_body_bytes: usize,
    /// The upstream address, or why there is none.
    pub upstream: Result<String, UrlError>,
    /// The headers sent upstream.
    pub headers: Vec<Header>,
    /// How long to wait for the upstream, in milliseconds.
    pub timeout_ms: u64,
}

/// Plans the forwarding of a request for `path` with `query` and headers
/// `incoming`; `NoRoute` when no route serves the path.
pub fn plan_forward(
    config: &GatewayConfig,
    path: &str,
    query: Option<&str>,
    incoming: &Vec<Header>,
) -> (r: Result<ForwardPlan, ProxyFailure>)
    ensures
        match r {
            Err(f) => f == ProxyFailure::NoRoute && forall|j: int|
                0 <= j < config.routes@.len() ==> !route_matches(
                    #[trigger] config.routes@[j],
                    path@,
                ),
            Ok(plan) => {
                let route = config.routes@[plan.route_index as int];
                &&& best_route(config.routes@, path@, plan.route_index as int)
                &&& plan.max_body_bytes == config.server.max_body_bytes
                &&& match plan.upstream {
                    Ok(u) => upstream_outcome(route, path@, query) == Ok::<Seq<char>, UrlError>(u@),
                    Err(e) => upstream_outcome(route, path@, query) == Err::<Seq<char>, UrlError>(e),
                }
                &&& plan.headers@.map_values(|h: Header| header_view(h)) == end_to_end(
                    incoming@.map_values(|h: Header| header_view(h)),
                ) + route_header_views(route.headers.pairs())
                &&& plan.timeout_ms == match route.timeout_ms {
                    Some(ms) => ms,
                    None => config.server.request_timeout_ms,
                }
            },
        },
{
    match config.route_index_for_path(path) {
        None => Err(ProxyFailure::NoRoute),
        Some(i) => {
            let route = &config.routes[i];
            Ok(ForwardPlan {
                route_index: i,
                max_body_bytes: config.server.max_body_bytes,
                upstream: route.upstream_url(path, query),
                headers: upstream_request_headers(incoming, route),
                timeout_ms: route_timeout_ms(route, config.server.request_timeout_ms),
            })
        },
    }
}

/// After the request body has been read (or found too large): the address
/// to send to, or the failure to answer. A body over the limit is reported
/// before a missing upstream address.
pub fn upstream_after_body(upstream: &Result<String, UrlError>, body_within_limit: bool) -> (r: Result<
    &String,
    ProxyFailure,
>)
    ensures
        !body_within_limit ==> r == Err::<&String, ProxyFailure>(ProxyFailure::BodyTooLarge),
        body_within_limit ==> match upstream {
            Ok(u) => r == Ok::<&String, ProxyFailure>(u),
            Err(_) => r == Err::<&String, ProxyFailure>(ProxyFailure::InvalidUpstream),
        },
{
    if !body_within_limit {
        return Err(ProxyFailure::BodyTooLarge);
    }
    match upstream {
        Ok(u) => Ok(u),
        Err(_) => Err(ProxyFailure::InvalidUpstream),
    }
}

/// How the request to the upstream ended.
#[derive(Clone, Copy, Debug, PartialEq, Eq, Structural)]
pub enum SendOutcome {
    Replied,
    Failed,
    TimedOut,
}

/// The failure to answer after sending upstream, if any.
pub fn send_failure(o: SendOutcome) -> (r: Option<ProxyFailure>)
    ensures
        r == match o {
            SendOutcome::Replied => None,
            SendOutcome::Failed => Some(ProxyFailure::UpstreamFailed),
            SendOutcome::TimedOut => Some(ProxyFailure::UpstreamTimeout),
        },
{
    match o {
        SendOutcome::Replied => None,
        SendOutcome::Failed => Some(ProxyFailure::UpstreamFailed),
        SendOutcome::TimedOut => Some(ProxyFailure::UpstreamTimeout),
    }
}

/// Why a reload was refused.
#[derive(Clone, Copy, Debug, PartialEq, Eq, Structural)]
pub enum ReloadError {
    /// The listening address changed; only a restart can apply that.
    BindChanged { from: BindAddr, to: BindAddr },
}

/// Replaces the running configuration with a freshly loaded one, unless the
/// listening address differs; a refused reload leaves the running one as it is.
pub fn apply_reload(current: &mut GatewayConfig, fresh: GatewayConfig) -> (r: Result<
    (),
    ReloadError,
>)
    ensures
        r is Ok <==> old(current).server.bind == fresh.server.bind,
        match r {
            Ok(()) => *final(current) == fresh,
            Err(e) => *final(current) == *old(current) && e == (ReloadError::BindChanged {
                from: old(current).server.bind,
                to: fresh.server.bind,
            }),
        },
{
    if current.server.bind != fresh.server.bind {
        return Err(ReloadError::BindChanged { from: current.server.bind, to: fresh.server.bind });
    }
    *current = fresh;
    Ok(())
}

/// Reloading a configuration with the same listening address always
/// succeeds and installs it; with another address it is refused and the
/// running configuration stays.
pub proof fn lemma_reload_outcome(current: GatewayConfig, fresh: GatewayConfig)
    ensures
        current.server.bind == fresh.server.bind ==> reload_result(current, fresh) == fresh,
        current.server.bind != fresh.server.bind ==> reload_result(current, fresh) == current,
        reload_result(reload_result(current, fresh), fresh) == reload_result(current, fresh),
{
}

/// The configuration that runs after a reload of `fresh` over `current`.
pub open spec fn reload_result(current: GatewayConfig, fresh: GatewayConfig) -> GatewayConfig {
    if current.server.bind == fresh.server.bind {
        fresh
    } else {
        current
    }
}

} // verus!
