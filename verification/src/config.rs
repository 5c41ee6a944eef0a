//! Gateway configuration: the server section, the routes, their validation,
//! the choice of a route for a request path and the upstream address that a
//! request is forwarded to.
use crate::route_headers::RouteHeaders;
use crate::text::{
    chars_of, has_prefix, is_blank, is_blank_str, is_ws, lemma_strip_leading_prepend, lemma_strip_trailing_append,
    lemma_strip_trailing_empty, push_char, seq_eq, starts_with, starts_with_char, strip_leading,
    strip_trailing, trim_end_char, trim_start_char, utf8_byte_len, CharSet,
};
use crate::upstream::{
    edit_fits, opt_utf8_len, opt_view, parse_url_text, replace_url_path_and_query, url_path,
    url_path_of, url_serialization, url_with_path_and_query, utf8_len,
};
use vstd::prelude::*;
use vstd::utf8::encode_utf8;

verus! {

/// A socket address to listen on (what `std::net::SocketAddr` holds).
#[derive(Clone, Copy, Debug, PartialEq, Eq, Structural)]
pub enum BindAddr {
    /// IPv4 address (big-endian number of the four octets) and port.
    V4 { ip: u32, port: u16 },
    /// IPv6 address (big-endian number of the sixteen octets), port, flow
    /// information and scope id.
    V6 { ip6: u128, port: u16, flowinfo: u32, scope_id: u32 },
}

/// The `[server]` section.
#[derive(Clone, Copy, Debug, PartialEq, Eq, Structural)]
pub struct ServerConfig {
    pub bind: BindAddr,
    pub max_body_bytes: usize,
    pub request_timeout_ms: u64,
}

/// One `[[routes]]` entry.
#[derive(Clone, Debug)]
pub struct RouteConfig {
    pub name: String,
    pub prefix: String,
    /// Text of the upstream URL, as `url::Url::as_str` gives it.
    pub upstream: String,
    pub strip_prefix: bool,
    pub headers: RouteHeaders,
    pub timeout_ms: Option<u64>,
}

/// The whole configuration file.
#[derive(Clone, Debug)]
pub struct GatewayConfig {
    pub server: ServerConfig,
    pub routes: Vec<RouteConfig>,
}

/// Why a configuration is refused.
#[derive(Clone, Debug)]
pub enum ConfigError {
    EmptyName,
    EmptyPrefix,
    PrefixWithoutSlash(String),
    PrefixWithoutSegment(String),
    DuplicateName(String),
    DuplicatePrefix(String),
}

/// A refusal with its texts as character sequences.
pub enum ConfigFault {
    EmptyName,
    EmptyPrefix,
    PrefixWithoutSlash(Seq<char>),
    PrefixWithoutSegment(Seq<char>),
    DuplicateName(Seq<char>),
    DuplicatePrefix(Seq<char>),
}

impl View for ConfigError {
    type V = ConfigFault;

    open spec fn view(&self) -> ConfigFault {
        match self {
            ConfigError::EmptyName => ConfigFault::EmptyName,
            ConfigError::EmptyPrefix => ConfigFault::EmptyPrefix,
            ConfigError::PrefixWithoutSlash(p) => ConfigFault::PrefixWithoutSlash(p@),
            ConfigError::PrefixWithoutSegment(p) => ConfigFault::PrefixWithoutSegment(p@),
            ConfigError::DuplicateName(n) => ConfigFault::DuplicateName(n@),
            ConfigError::DuplicatePrefix(p) => ConfigFault::DuplicatePrefix(p@),
        }
    }
}

pub open spec fn fault_message(f: ConfigFault) -> Seq<char> {
    match f {
        ConfigFault::EmptyName => "route name cannot be empty"@,
        ConfigFault::EmptyPrefix => "route prefix cannot be empty"@,
        ConfigFault::PrefixWithoutSlash(p) => "route prefix must start with '/': "@ + p,
        ConfigFault::PrefixWithoutSegment(p) => "route prefix must contain a path segment: "@ + p,
        ConfigFault::DuplicateName(n) => "duplicate route name: "@ + n,
        ConfigFault::DuplicatePrefix(p) => "duplicate route prefix: "@ + p,
    }
}

impl ConfigError {
    /// The text that reports this refusal.
    pub fn message(&self) -> (m: String)
        ensures
            m@ == fault_message(self@),
    {
        match self {
            ConfigError::EmptyName => "route name cannot be empty".to_owned(),
            ConfigError::EmptyPrefix => "route prefix cannot be empty".to_owned(),
            ConfigError::PrefixWithoutSlash(p) => "route prefix must start with '/': ".to_owned().concat(
                p.as_str(),
            ),
            ConfigError::PrefixWithoutSegment(p) => "route prefix must contain a path segment: ".to_owned().concat(
                p.as_str(),
            ),
            ConfigError::DuplicateName(n) => "duplicate route name: ".to_owned().concat(n.as_str()),
            ConfigError::DuplicatePrefix(p) => "duplicate route prefix: ".to_owned().concat(
                p.as_str(),
            ),
        }
    }
}

/// The prefix `/` alone.
pub open spec fn is_root(p: Seq<char>) -> bool {
    p == seq!['/']
}

/// A prefix without its trailing slashes, `/` itself kept.
pub open spec fn normalized(p: Seq<char>) -> Seq<char> {
    if is_root(p) {
        p
    } else {
        strip_trailing(p, CharSet::Only('/'))
    }
}

/// `path` lies under `prefix`: it is the prefix itself or continues it after
/// a `/`; the root prefix takes every path.
pub open spec fn prefix_covers(prefix: Seq<char>, path: Seq<char>) -> bool {
    ||| is_root(prefix)
    ||| path == prefix
    ||| starts_with(path, strip_trailing(prefix, CharSet::Only('/')).push('/'))
}

pub open spec fn route_matches(route: RouteConfig, path: Seq<char>) -> bool {
    prefix_covers(normalized(route.prefix@), path)
}

/// What is wrong with a single route, if anything.
pub open spec fn route_fault(route: RouteConfig) -> Option<ConfigFault> {
    let p = route.prefix@;
    if is_blank(route.name@) {
        Some(ConfigFault::EmptyName)
    } else if is_blank(p) {
        Some(ConfigFault::EmptyPrefix)
    } else if !(p.len() > 0 && p[0] == '/') {
        Some(ConfigFault::PrefixWithoutSlash(p))
    } else if !is_root(p) && normalized(p).len() == 0 {
        Some(ConfigFault::PrefixWithoutSegment(p))
    } else {
        None
    }
}

fn is_root_str(v: &Vec<char>) -> (r: bool)
    ensures
        r == is_root(v@),
{
    let r = v.len() == 1 && v[0] == '/';
    proof {
        if v@.len() == 1 && v@[0] == '/' {
            assert(v@ =~= seq!['/']);
        }
    }
    r
}

/// A prefix without its trailing slashes; `/` stays `/`.
pub fn normalized_prefix(prefix: &str) -> (r: &str)
    ensures
        r@ == normalized(prefix@),
{
    let v = chars_of(prefix);
    if is_root_str(&v) {
        prefix
    } else {
        trim_end_char(prefix, '/')
    }
}

/// Whether `path` lies under `prefix`.
pub fn prefix_matches(prefix: &str, path: &str) -> (r: bool)
    ensures
        r == prefix_covers(prefix@, path@),
{
    let pv = chars_of(prefix);
    if is_root_str(&pv) {
        return true;
    }
    let path_v = chars_of(path);
    if seq_eq(&path_v, 0, &pv) {
        assert(path_v@.skip(0) == path_v@);
        return true;
    }
    assert(path_v@.skip(0) == path_v@);
    let base = trim_end_char(prefix, '/');
    let mut with_slash = chars_of(base);
    with_slash.push('/');
    has_prefix(&path_v, &with_slash)
}

impl RouteConfig {
    /// Checks the route on its own (`Ok` exactly when `route_fault` finds nothing).
    pub fn validate(&self) -> (r: Result<(), ConfigError>)
        ensures
            match r {
                Ok(()) => route_fault(*self) is None,
                Err(e) => route_fault(*self) == Some(e@),
            },
    {
        if is_blank_str(self.name.as_str()) {
            return Err(ConfigError::EmptyName);
        }
        if is_blank_str(self.prefix.as_str()) {
            return Err(ConfigError::EmptyPrefix);
        }
        if !starts_with_char(self.prefix.as_str(), '/') {
            return Err(ConfigError::PrefixWithoutSlash(self.prefix.clone()));
        }
        let pv = chars_of(self.prefix.as_str());
        if !is_root_str(&pv) && normalized_prefix(self.prefix.as_str()).unicode_len() == 0 {
            return Err(ConfigError::PrefixWithoutSegment(self.prefix.clone()));
        }
        Ok(())
    }

    /// Whether this route serves `path`.
    pub fn matches(&self, path: &str) -> (r: bool)
        ensures
            r == route_matches(*self, path@),
    {
        prefix_matches(normalized_prefix(self.prefix.as_str()), path)
    }
}

/// The root prefix `/` covers every path.
pub proof fn lemma_root_covers_every_path(path: Seq<char>)
    ensures
        prefix_covers(seq!['/'], path),
{
}

/// Any other prefix, written as `q` followed by trailing slashes `t`, covers
/// exactly the prefix itself and the paths that continue `q` with a `/`,
/// however many segments follow that `/`.
pub proof fn lemma_prefix_covers_exactly(q: Seq<char>, t: Seq<char>, path: Seq<char>)
    requires
        q.len() == 0 || q.last() != '/',
        forall|i: int| 0 <= i < t.len() ==> t[i] == '/',
        q + t != seq!['/'],
    ensures
        prefix_covers(q + t, path) <==> (path == q + t || (q.len() < path.len() && path.take(
            q.len() as int,
        ) == q && path[q.len() as int] == '/')),
{
    lemma_strip_trailing_append(q, t, CharSet::Only('/'));
    assert(strip_trailing(q, CharSet::Only('/')) == q);
    let w = q.push('/');
    assert(strip_trailing(q + t, CharSet::Only('/')).push('/') == w);
    assert(w.len() == q.len() + 1);
    if q.len() < path.len() {
        let head = path.take(q.len() + 1int);
        assert(head =~= path.take(q.len() as int).push(path[q.len() as int]));
        if head == w {
            assert(w.drop_last() =~= q);
            assert(path.take(q.len() as int) =~= w.drop_last());
            assert(w[q.len() as int] == '/');
            assert(path[q.len() as int] == head[q.len() as int]);
        }
        if path.take(q.len() as int) == q && path[q.len() as int] == '/' {
            assert(head =~= w);
        }
        assert(starts_with(path, w) <==> head == w);
        assert(starts_with(path, w) <==> (path.take(q.len() as int) == q && path[q.len() as int]
            == '/'));
    } else {
        assert(!starts_with(path, w));
    }
}

/// A prefix without trailing slash covers itself and every path that
/// continues it with `/` and any text after that, further `/`s included.
pub proof fn lemma_prefix_covers_descendants(p: Seq<char>, rest: Seq<char>)
    requires
        p.len() > 0,
        p.last() != '/',
    ensures
        prefix_covers(p, p),
        prefix_covers(p, p + seq!['/'] + rest),
{
    let path = p + seq!['/'] + rest;
    assert(p + Seq::<char>::empty() =~= p);
    assert(p[p.len() - 1] != '/');
    lemma_prefix_covers_exactly(p, Seq::empty(), path);
    assert(path.take(p.len() as int) =~= p);
    assert(path[p.len() as int] == '/');
}

/// A route whose prefix is `/` serves every path.
pub proof fn lemma_root_route_matches(route: RouteConfig, path: Seq<char>)
    requires
        route.prefix@ == seq!['/'],
    ensures
        route_matches(route, path),
{
}

/// A route whose prefix is `q` followed by trailing slashes (and not `/`
/// itself) serves exactly the path `q` and the paths that continue `q` with
/// a `/`, at any depth.
pub proof fn lemma_route_matches_exactly(route: RouteConfig, q: Seq<char>, t: Seq<char>, path: Seq<char>)
    requires
        route.prefix@ == q + t,
        q.len() == 0 || q.last() != '/',
        forall|i: int| 0 <= i < t.len() ==> t[i] == '/',
        q + t != seq!['/'],
    ensures
        route_matches(route, path) <==> (path == q || (q.len() < path.len() && path.take(
            q.len() as int,
        ) == q && path[q.len() as int] == '/')),
{
    lemma_strip_trailing_append(q, t, CharSet::Only('/'));
    assert(strip_trailing(q, CharSet::Only('/')) == q);
    assert(normalized(route.prefix@) == q);
    assert(q + Seq::<char>::empty() =~= q);
    if q.len() > 0 {
        assert(q[q.len() - 1] != '/');
        assert(q != seq!['/']);
    }
    lemma_prefix_covers_exactly(q, Seq::empty(), path);
}

/// A route passes its own check exactly when its name is not blank and its
/// prefix starts with `/` and is either `/` or holds some character other
/// than `/`; which other characters it holds (letters, digits, dots, ...)
/// does not matter.
pub proof fn lemma_route_accepted_iff(route: RouteConfig)
    ensures
        route_fault(route) is None <==> {
            let p = route.prefix@;
            &&& !is_blank(route.name@)
            &&& p.len() > 0
            &&& p[0] == '/'
            &&& (p == seq!['/'] || exists|i: int| 0 <= i < p.len() && p[i] != '/')
        },
{
    let p = route.prefix@;
    lemma_strip_trailing_empty(p, CharSet::Only('/'));
    if p.len() > 0 && p[0] == '/' {
        assert(!is_ws(p[0]));
        assert(!is_blank(p));
        if exists|i: int| 0 <= i < p.len() && p[i] != '/' {
            let i = choose|i: int| 0 <= i < p.len() && p[i] != '/';
            assert(!crate::text::in_set(CharSet::Only('/'), p[i]));
        }
    }
}

/// Length in bytes of a route's prefix (what `String::len` gives).
pub open spec fn prefix_len(route: RouteConfig) -> usize {
    encode_utf8(route.prefix@).len() as usize
}

/// What is wrong with route `i` given the routes before it: its own fault,
/// then a name used before, then a prefix used before (compared without
/// trailing slashes).
pub open spec fn route_check(routes: Seq<RouteConfig>, i: int) -> Option<ConfigFault> {
    match route_fault(routes[i]) {
        Some(f) => Some(f),
        None => if exists|j: int| 0 <= j < i && (#[trigger] routes[j]).name@ == routes[i].name@ {
            Some(ConfigFault::DuplicateName(routes[i].name@))
        } else if exists|j: int|
            0 <= j < i && normalized((#[trigger] routes[j]).prefix@) == normalized(
                routes[i].prefix@,
            ) {
            Some(ConfigFault::DuplicatePrefix(normalized(routes[i].prefix@)))
        } else {
            None
        },
    }
}

/// The first fault found when the first `n` routes are checked in order.
pub open spec fn first_fault(routes: Seq<RouteConfig>, n: int) -> Option<ConfigFault>
    decreases n,
{
    if n <= 0 {
        None
    } else {
        match first_fault(routes, n - 1) {
            Some(f) => Some(f),
            None => route_check(routes, n - 1),
        }
    }
}

/// The fault that refuses a list of routes, `None` for an acceptable one.
pub open spec fn config_fault(routes: Seq<RouteConfig>) -> Option<ConfigFault> {
    first_fault(routes, routes.len() as int)
}

/// `p` shows that `new` is `old` reordered by decreasing prefix length,
/// routes of equal prefix length keeping their order.
pub open spec fn sort_witness(old: Seq<RouteConfig>, new: Seq<RouteConfig>, p: Seq<int>) -> bool {
    &&& new.len() == old.len()
    &&& p.len() == old.len()
    &&& forall|i: int| 0 <= i < p.len() ==> 0 <= #[trigger] p[i] < old.len() && new[i] == old[p[i]]
    &&& forall|i: int, j: int| #![trigger p[i], p[j]] 0 <= i < j < p.len() ==> p[i] != p[j]
    &&& forall|i: int, j: int|
        #![trigger new[i], new[j]]
        0 <= i < j < new.len() ==> prefix_len(new[i]) >= prefix_len(new[j])
    &&& forall|i: int, j: int|
        #![trigger p[i], p[j]]
        0 <= i < j < new.len() && prefix_len(new[i]) == prefix_len(new[j]) ==> p[i] < p[j]
}

/// `new` is the stable sort of `old` by decreasing prefix length.
pub open spec fn stable_sorted_by_prefix_len(old: Seq<RouteConfig>, new: Seq<RouteConfig>) -> bool {
    exists|p: Seq<int>| sort_witness(old, new, p)
}

/// Routes sorted for serving come longest prefix first, and each of them is
/// one of the routes given, as many as were given.
pub proof fn lemma_sorted_routes_longest_first(given: Seq<RouteConfig>, sorted: Seq<RouteConfig>)
    requires
        stable_sorted_by_prefix_len(given, sorted),
    ensures
        sorted.len() == given.len(),
        forall|i: int, j: int|
            0 <= i < j < sorted.len() ==> prefix_len(#[trigger] sorted[i]) >= prefix_len(
                #[trigger] sorted[j],
            ),
        forall|i: int| 0 <= i < sorted.len() ==> given.contains(#[trigger] sorted[i]),
{
    let p = choose|p: Seq<int>| sort_witness(given, sorted, p);
    assert forall|i: int| 0 <= i < sorted.len() implies given.contains(#[trigger] sorted[i]) by {
        let j = p[i];
        assert(0 <= j < given.len() && given[j] == sorted[i]);
    }
}

/// Sorts routes by decreasing prefix length, keeping the order of routes
/// whose prefixes are equally long.
pub fn sort_routes_by_prefix_len(routes: Vec<RouteConfig>) -> (sorted: Vec<RouteConfig>)
    ensures
        stable_sorted_by_prefix_len(routes@, sorted@),
{
    let ghost orig = routes@;
    let mut pending = routes;
    let mut sorted: Vec<RouteConfig> = Vec::new();
    let ghost mut p: Seq<int> = Seq::empty();
    let mut taken: usize = 0;
    let total = pending.len();
    assert(orig.skip(0) == orig);
    while pending.len() > 0
        invariant
            total == orig.len(),
            taken + pending.len() == orig.len(),
            pending@ == orig.skip(taken as int),
            sort_witness(orig.take(taken as int), sorted@, p),
        decreases pending.len(),
    {
        let ghost old_sorted = sorted@;
        let ghost old_p = p;
        let ghost before = orig.take(taken as int);
        let r = pending.remove(0);
        assert(r == orig[taken as int]);
        let key = r.prefix.as_str().len();
        let mut k: usize = 0;
        while k < sorted.len() && sorted[k].prefix.as_str().len() >= key
            invariant
                k <= sorted.len(),
                sorted@ == old_sorted,
                key == prefix_len(r),
                forall|m: int| 0 <= m < k ==> prefix_len(#[trigger] sorted@[m]) >= key,
            decreases sorted.len() - k,
        {
            k = k + 1;
        }
        assert forall|m: int| k <= m < old_sorted.len() implies prefix_len(
            #[trigger] old_sorted[m],
        ) < key by {
            assert(prefix_len(old_sorted[k as int]) < key);
            if m > k {
                assert(prefix_len(old_sorted[k as int]) >= prefix_len(old_sorted[m]));
            }
        }
        sorted.insert(k, r);
        let ghost after = orig.take(taken + 1);
        proof {
            p = old_p.insert(k as int, taken as int);
            assert(after == before.push(r));
            let new = sorted@;
            assert(new == old_sorted.insert(k as int, r));
            assert forall|i: int| 0 <= i < p.len() implies 0 <= #[trigger] p[i] < after.len()
                && new[i] == after[p[i]] by {
                if i < k {
                    assert(p[i] == old_p[i]);
                    assert(new[i] == old_sorted[i]);
                } else if i > k {
                    assert(p[i] == old_p[i - 1]);
                    assert(new[i] == old_sorted[i - 1]);
                }
            }
            assert forall|i: int, j: int| #![trigger p[i], p[j]] 0 <= i < j < p.len() implies p[i]
                != p[j] by {
                if i < k && j < k {
                } else if i < k && j == k {
                } else if i < k && j > k {
                    assert(p[j] == old_p[j - 1]);
                } else if i == k {
                    assert(p[j] == old_p[j - 1]);
                } else {
                    assert(p[i] == old_p[i - 1]);
                    assert(p[j] == old_p[j - 1]);
                }
            }
            assert forall|i: int, j: int|
                #![trigger new[i], new[j]]
                0 <= i < j < new.len() implies prefix_len(new[i]) >= prefix_len(new[j]) by {
                if i < k && j < k {
                } else if i < k && j == k {
                } else if i < k && j > k {
                    assert(new[j] == old_sorted[j - 1]);
                    assert(prefix_len(old_sorted[i]) >= prefix_len(old_sorted[j - 1]));
                } else if i == k {
                    assert(new[j] == old_sorted[j - 1]);
                } else {
                    assert(new[i] == old_sorted[i - 1]);
                    assert(new[j] == old_sorted[j - 1]);
                    assert(prefix_len(old_sorted[i - 1]) >= prefix_len(old_sorted[j - 1]));
                }
            }
            assert forall|i: int, j: int|
                #![trigger p[i], p[j]]
                0 <= i < j < new.len() && prefix_len(new[i]) == prefix_len(new[j]) implies p[i]
                < p[j] by {
                if i < k && j < k {
                    assert(old_p[i] < old_p[j]);
                } else if i < k && j == k {
                } else if i < k && j > k {
                    assert(new[j] == old_sorted[j - 1]);
                    assert(p[j] == old_p[j - 1]);
                    assert(old_p[i] < old_p[j - 1]);
                } else if i == k {
                    assert(new[j] == old_sorted[j - 1]);
                } else {
                    assert(new[i] == old_sorted[i - 1]);
                    assert(new[j] == old_sorted[j - 1]);
                    assert(p[i] == old_p[i - 1]);
                    assert(p[j] == old_p[j - 1]);
                    assert(old_p[i - 1] < old_p[j - 1]);
                }
            }
            assert(sort_witness(after, new, p));
        }
        taken = taken + 1;
        assert(pending@ == orig.skip(taken as int));
    }
    assert(orig.take(taken as int) == orig);
    sorted
}

/// The route that serves `path`: among the matching routes, one with the
/// longest prefix, and of several such the last (what `Iterator::max_by_key`
/// picks).
pub open spec fn best_route(routes: Seq<RouteConfig>, path: Seq<char>, i: int) -> bool {
    &&& 0 <= i < routes.len()
    &&& route_matches(routes[i], path)
    &&& forall|j: int|
        0 <= j < routes.len() && route_matches(#[trigger] routes[j], path) ==> prefix_len(routes[j])
            <= prefix_len(routes[i]) && (j > i ==> prefix_len(routes[j]) < prefix_len(routes[i]))
}

/// The route chosen for a path serves it, and no route that serves the path
/// has a longer prefix (counted in bytes); of routes with equally long
/// prefixes the last one in the list is chosen.
pub proof fn lemma_chosen_route_has_longest_prefix(routes: Seq<RouteConfig>, path: Seq<char>, i: int)
    requires
        best_route(routes, path, i),
    ensures
        0 <= i < routes.len(),
        route_matches(routes[i], path),
        forall|j: int|
            0 <= j < routes.len() && j != i && route_matches(#[trigger] routes[j], path) ==> (
            prefix_len(routes[j]) < prefix_len(routes[i]) || (j < i && prefix_len(routes[j])
                == prefix_len(routes[i]))),
{
}

/// At most one route is the one chosen for a path.
pub proof fn lemma_chosen_route_unique(routes: Seq<RouteConfig>, path: Seq<char>, i: int, j: int)
    requires
        best_route(routes, path, i),
        best_route(routes, path, j),
    ensures
        i == j,
{
}

impl GatewayConfig {
    /// Checks every route in order, refusing the first fault; on success the
    /// routes are reordered by decreasing prefix length (stable).
    pub fn validate(&mut self) -> (r: Result<(), ConfigError>)
        ensures
            r is Ok <==> config_fault(old(self).routes@) is None,
            match r {
                Ok(()) => final(self).server == old(self).server && stable_sorted_by_prefix_len(
                    old(self).routes@,
                    final(self).routes@,
                ),
                Err(e) => *final(self) == *old(self) && config_fault(old(self).routes@) == Some(
                    e@,
                ),
            },
    {
        let n = self.routes.len();
        let mut i: usize = 0;
        while i < n
            invariant
                n == self.routes@.len(),
                i <= n,
                first_fault(self.routes@, i as int) is None,
            decreases n - i,
        {
            let ghost routes = self.routes@;
            match self.routes[i].validate() {
                Err(e) => {
                    proof {
                        lemma_first_fault_stays(routes, i as int + 1);
                    }
                    return Err(e);
                },
                Ok(()) => {},
            }
            let mut j: usize = 0;
            while j < i
                invariant
                    j <= i < n == self.routes@.len(),
                    routes == self.routes@,
                    route_fault(routes[i as int]) is None,
                    first_fault(routes, i as int) is None,
                    forall|m: int| 0 <= m < j ==> (#[trigger] routes[m]).name@ != routes[i as int].name@,
                decreases i - j,
            {
                if self.routes[j].name == self.routes[i].name {
                    proof {
                        assert(routes[j as int].name@ == routes[i as int].name@);
                        assert(route_check(routes, i as int) == Some(
                            ConfigFault::DuplicateName(routes[i as int].name@),
                        ));
                        assert(first_fault(routes, i as int + 1) == route_check(routes, i as int));
                        lemma_first_fault_stays(routes, i as int + 1);
                        assert(first_fault(routes, n as int) == first_fault(routes, i as int + 1));
                    }
                    return Err(ConfigError::DuplicateName(self.routes[i].name.clone()));
                }
                j = j + 1;
            }
            let np = normalized_prefix(self.routes[i].prefix.as_str());
            let mut j: usize = 0;
            while j < i
                invariant
                    j <= i < n == self.routes@.len(),
                    routes == self.routes@,
                    route_fault(routes[i as int]) is None,
                    first_fault(routes, i as int) is None,
                    forall|m: int| 0 <= m < i ==> (#[trigger] routes[m]).name@ != routes[i as int].name@,
                    np@ == normalized(routes[i as int].prefix@),
                    forall|m: int|
                        0 <= m < j ==> normalized((#[trigger] routes[m]).prefix@) != np@,
                decreases i - j,
            {
                if crate::text::str_eq(normalized_prefix(self.routes[j].prefix.as_str()), np) {
                    proof {
                        assert(normalized(routes[j as int].prefix@) == np@);
                        assert(route_check(routes, i as int) == Some(
                            ConfigFault::DuplicatePrefix(np@),
                        ));
                        assert(first_fault(routes, i as int + 1) == route_check(routes, i as int));
                        lemma_first_fault_stays(routes, i as int + 1);
                        assert(first_fault(routes, n as int) == first_fault(routes, i as int + 1));
                    }
                    return Err(ConfigError::DuplicatePrefix(np.to_owned()));
                }
                j = j + 1;
            }
            i = i + 1;
        }
        proof {
            lemma_first_fault_stays(self.routes@, n as int);
        }
        let mut routes: Vec<RouteConfig> = Vec::new();
        std::mem::swap(&mut routes, &mut self.routes);
        self.routes = sort_routes_by_prefix_len(routes);
        Ok(())
    }

    /// Position of the route that serves `path`, `None` when no route matches.
    pub fn route_index_for_path(&self, path: &str) -> (r: Option<usize>)
        ensures
            match r {
                None => forall|j: int|
                    0 <= j < self.routes@.len() ==> !route_matches(#[trigger] self.routes@[j], path@),
                Some(i) => best_route(self.routes@, path@, i as int),
            },
    {
        let mut best: Option<usize> = None;
        let mut best_len: usize = 0;
        let mut i: usize = 0;
        while i < self.routes.len()
            invariant
                i <= self.routes@.len(),
                match best {
                    None => forall|j: int|
                        0 <= j < i ==> !route_matches(#[trigger] self.routes@[j], path@),
                    Some(b) => {
                        &&& b < i
                        &&& route_matches(self.routes@[b as int], path@)
                        &&& best_len == prefix_len(self.routes@[b as int])
                        &&& forall|j: int|
                            0 <= j < i && route_matches(#[trigger] self.routes@[j], path@)
                                ==> prefix_len(self.routes@[j]) <= best_len && (j > b
                                ==> prefix_len(self.routes@[j]) < best_len)
                    },
                },
            decreases self.routes@.len() - i,
        {
            if self.routes[i].matches(path) {
                let l = self.routes[i].prefix.as_str().len();
                if best.is_none() || l >= best_len {
                    best = Some(i);
                    best_len = l;
                }
            }
            i = i + 1;
        }
        best
    }

    /// The route that serves `path`, `None` when no route matches.
    pub fn route_for_path(&self, path: &str) -> (r: Option<&RouteConfig>)
        ensures
            match r {
                None => forall|j: int|
                    0 <= j < self.routes@.len() ==> !route_matches(#[trigger] self.routes@[j], path@),
                Some(route) => exists|i: int|
                    best_route(self.routes@, path@, i) && #[trigger] self.routes@[i] == *route,
            },
    {
        match self.route_index_for_path(path) {
            Some(i) => Some(&self.routes[i]),
            None => None,
        }
    }
}

/// In a list of routes that validation accepts, no two routes share a name
/// or a prefix (compared without trailing slashes), and every route is
/// acceptable on its own.
pub proof fn lemma_accepted_routes_distinct(routes: Seq<RouteConfig>)
    requires
        config_fault(routes) is None,
    ensures
        forall|i: int| 0 <= i < routes.len() ==> route_fault(#[trigger] routes[i]) is None,
        forall|i: int, j: int|
            #![trigger routes[i], routes[j]]
            0 <= i < j < routes.len() ==> routes[i].name@ != routes[j].name@ && normalized(
                routes[i].prefix@,
            ) != normalized(routes[j].prefix@),
{
    lemma_first_fault_stays(routes, routes.len() as int);
    assert forall|j: int| 0 <= j < routes.len() implies route_check(routes, j) is None by {
        assert(first_fault(routes, j) is None);
        assert(first_fault(routes, j + 1) is None);
    }
    assert forall|i: int| 0 <= i < routes.len() implies route_fault(#[trigger] routes[i]) is None by {
        assert(route_check(routes, i) is None);
    }
    assert forall|i: int, j: int|
        #![trigger routes[i], routes[j]]
        0 <= i < j < routes.len() implies routes[i].name@ != routes[j].name@ && normalized(
            routes[i].prefix@,
        ) != normalized(routes[j].prefix@) by {
        assert(route_check(routes, j) is None);
        assert(route_fault(routes[j]) is None);
    }
}

/// Two routes whose prefixes differ only in trailing slashes (`/jira` and
/// `/jira/`) cannot both be configured: the configuration is refused.
pub proof fn lemma_trailing_slash_duplicates_refused(
    routes: Seq<RouteConfig>,
    i: int,
    j: int,
    q: Seq<char>,
    t1: Seq<char>,
    t2: Seq<char>,
)
    requires
        0 <= i < j < routes.len(),
        q.len() > 0,
        q.last() != '/',
        forall|k: int| 0 <= k < t1.len() ==> t1[k] == '/',
        forall|k: int| 0 <= k < t2.len() ==> t2[k] == '/',
        routes[i].prefix@ == q + t1,
        routes[j].prefix@ == q + t2,
    ensures
        config_fault(routes) is Some,
{
    lemma_strip_trailing_append(q, t1, CharSet::Only('/'));
    lemma_strip_trailing_append(q, t2, CharSet::Only('/'));
    assert(q[q.len() - 1] != '/');
    assert(strip_trailing(q, CharSet::Only('/')) == q);
    assert(q + t1 != seq!['/']);
    assert(q + t2 != seq!['/']);
    assert(normalized(routes[i].prefix@) == normalized(routes[j].prefix@));
    if config_fault(routes) is None {
        lemma_accepted_routes_distinct(routes);
        assert(routes[i].name@ != routes[j].name@ && normalized(routes[i].prefix@) != normalized(
            routes[j].prefix@,
        ));
    }
}

/// Routes that are each acceptable, with pairwise different names and
/// prefixes, are accepted.
pub proof fn lemma_distinct_routes_accepted(routes: Seq<RouteConfig>, n: int)
    requires
        0 <= n <= routes.len(),
        forall|i: int| 0 <= i < routes.len() ==> route_fault(#[trigger] routes[i]) is None,
        forall|i: int, j: int|
            #![trigger routes[i], routes[j]]
            0 <= i < j < routes.len() ==> routes[i].name@ != routes[j].name@ && normalized(
                routes[i].prefix@,
            ) != normalized(routes[j].prefix@),
    ensures
        first_fault(routes, n) is None,
    decreases n,
{
    if n > 0 {
        lemma_distinct_routes_accepted(routes, n - 1);
        let k = n - 1;
        assert(route_fault(routes[k]) is None);
        assert(!(exists|j: int| 0 <= j < k && (#[trigger] routes[j]).name@ == routes[k].name@));
        assert(!(exists|j: int|
            0 <= j < k && normalized((#[trigger] routes[j]).prefix@) == normalized(routes[k].prefix@)));
    }
}

/// Validation accepts the routes it has put in order: a configuration that
/// passed validation passes it again.
pub proof fn lemma_validated_stays_valid(old: Seq<RouteConfig>, new: Seq<RouteConfig>)
    requires
        config_fault(old) is None,
        stable_sorted_by_prefix_len(old, new),
    ensures
        config_fault(new) is None,
{
    lemma_accepted_routes_distinct(old);
    let p = choose|p: Seq<int>| sort_witness(old, new, p);
    assert forall|i: int| 0 <= i < new.len() implies route_fault(#[trigger] new[i]) is None by {
        assert(new[i] == old[p[i]]);
    }
    assert forall|i: int, j: int|
        #![trigger new[i], new[j]]
        0 <= i < j < new.len() implies new[i].name@ != new[j].name@ && normalized(new[i].prefix@)
            != normalized(new[j].prefix@) by {
        assert(new[i] == old[p[i]]);
        assert(new[j] == old[p[j]]);
        assert(p[i] != p[j]);
        if p[i] < p[j] {
            assert(old[p[i]] == old[p[i]] && old[p[j]] == old[p[j]]);
        } else {
            assert(old[p[j]] == old[p[j]] && old[p[i]] == old[p[i]]);
        }
    }
    lemma_distinct_routes_accepted(new, new.len() as int);
}

/// Validation is idempotent: validating the routes that a successful
/// validation left behind succeeds again and leaves them exactly as they are.
pub proof fn lemma_validate_idempotent(
    old: Seq<RouteConfig>,
    mid: Seq<RouteConfig>,
    new: Seq<RouteConfig>,
)
    requires
        config_fault(old) is None,
        stable_sorted_by_prefix_len(old, mid),
        stable_sorted_by_prefix_len(mid, new),
    ensures
        config_fault(mid) is None,
        new == mid,
{
    lemma_validated_stays_valid(old, mid);
    let p1 = choose|p: Seq<int>| sort_witness(old, mid, p);
    let p = choose|p: Seq<int>| sort_witness(mid, new, p);
    assert forall|i: int, j: int| 0 <= i < j < p.len() implies p[i] < p[j] by {
        assert(p[i] != p[j]);
        assert(new[i] == mid[p[i]] && new[j] == mid[p[j]]);
        if prefix_len(new[i]) != prefix_len(new[j]) && p[i] > p[j] {
            assert(prefix_len(mid[p[j]]) >= prefix_len(mid[p[i]]));
        }
    }
    lemma_increasing_is_identity(p, mid.len() as int);
    assert forall|i: int| 0 <= i < new.len() implies new[i] == mid[i] by {
        assert(new[i] == mid[p[i]]);
    }
    assert(new =~= mid);
}

/// A strictly increasing sequence of `n` positions below `n` is `0, 1, ..., n - 1`.
pub proof fn lemma_increasing_is_identity(p: Seq<int>, n: int)
    requires
        p.len() == n,
        forall|i: int| 0 <= i < n ==> 0 <= #[trigger] p[i] < n,
        forall|i: int, j: int| 0 <= i < j < n ==> #[trigger] p[i] < #[trigger] p[j],
    ensures
        forall|i: int| 0 <= i < n ==> #[trigger] p[i] == i,
{
    assert forall|i: int| 0 <= i < n implies #[trigger] p[i] >= i by {
        lemma_increasing_lower(p, n, i);
    }
    assert forall|i: int| 0 <= i < n implies #[trigger] p[i] <= i by {
        lemma_increasing_upper(p, n, i);
    }
}

proof fn lemma_increasing_lower(p: Seq<int>, n: int, i: int)
    requires
        p.len() == n,
        0 <= i < n,
        forall|k: int| 0 <= k < n ==> 0 <= #[trigger] p[k] < n,
        forall|a: int, b: int| 0 <= a < b < n ==> #[trigger] p[a] < #[trigger] p[b],
    ensures
        p[i] >= i,
    decreases i,
{
    if i > 0 {
        lemma_increasing_lower(p, n, i - 1);
        assert(p[i - 1] < p[i]);
    }
}

proof fn lemma_increasing_upper(p: Seq<int>, n: int, i: int)
    requires
        p.len() == n,
        0 <= i < n,
        forall|k: int| 0 <= k < n ==> 0 <= #[trigger] p[k] < n,
        forall|a: int, b: int| 0 <= a < b < n ==> #[trigger] p[a] < #[trigger] p[b],
    ensures
        p[i] <= i,
    decreases n - i,
{
    if i < n - 1 {
        lemma_increasing_upper(p, n, i + 1);
        assert(p[i] < p[i + 1]);
    }
}

/// Once a fault is found among the first `n` routes, checking more routes
/// reports the same fault; without one, no earlier prefix had one.
pub proof fn lemma_first_fault_stays(routes: Seq<RouteConfig>, n: int)
    ensures
        forall|m: int| n <= m ==> #[trigger] first_fault(routes, m) == if first_fault(routes, n) is Some {
            first_fault(routes, n)
        } else {
            first_fault(routes, m)
        },
        forall|m: int| 0 <= m <= n && first_fault(routes, n) is None ==> #[trigger] first_fault(routes, m) is None,
{
    assert forall|m: int| n <= m implies #[trigger] first_fault(routes, m) == if first_fault(routes, n) is Some {
        first_fault(routes, n)
    } else {
        first_fault(routes, m)
    } by {
        lemma_first_fault_mono(routes, n, m);
    }
    assert forall|m: int| 0 <= m <= n && first_fault(routes, n) is None implies #[trigger] first_fault(routes, m) is None by {
        lemma_first_fault_mono(routes, m, n);
    }
}

proof fn lemma_first_fault_mono(routes: Seq<RouteConfig>, n: int, m: int)
    requires
        n <= m,
    ensures
        first_fault(routes, n) is Some ==> first_fault(routes, m) == first_fault(routes, n),
    decreases m - n,
{
    if n < m {
        lemma_first_fault_mono(routes, n, m - 1);
    }
}

/// Why no upstream address could be built.
#[derive(Clone, Copy, Debug, PartialEq, Eq, Structural)]
pub enum UrlError {
    /// The `url` crate refused the text.
    Invalid,
    /// The new path and query could take the URL's serialization past
    /// `u32::MAX` bytes, the size at which the `url` crate panics.
    TooLong,
}

/// The part of `path` that is appended to the upstream path: without the
/// route's prefix when the route strips it, and without leading slashes.
pub open spec fn request_suffix(route: RouteConfig, path: Seq<char>) -> Seq<char> {
    let prefix = normalized(route.prefix@);
    let rest = if route.strip_prefix && starts_with(path, prefix) {
        path.skip(prefix.len() as int)
    } else {
        path
    };
    strip_leading(rest, CharSet::Only('/'))
}

/// The upstream path `base_path` (trailing slashes dropped) followed by `suffix`.
pub open spec fn merged_path(base_path: Seq<char>, suffix: Seq<char>) -> Seq<char> {
    let base = strip_trailing(base_path, CharSet::Only('/'));
    if base.len() == 0 || is_root(base) {
        if suffix.len() == 0 {
            seq!['/']
        } else {
            seq!['/'] + suffix
        }
    } else if suffix.len() == 0 {
        base
    } else {
        base + seq!['/'] + suffix
    }
}

/// The address a request for `path` with `query` is sent to: the upstream
/// URL with the merged path and the query set.
pub open spec fn upstream_outcome(route: RouteConfig, path: Seq<char>, query: Option<&str>) -> Result<
    Seq<char>,
    UrlError,
> {
    let up = route.upstream@;
    match url_serialization(up) {
        None => Err(UrlError::Invalid),
        Some(serialization) => match url_path(up) {
            None => Err(UrlError::Invalid),
            Some(base) => {
                let merged = merged_path(base, request_suffix(route, path));
                if !edit_fits(utf8_len(serialization), utf8_len(merged), opt_utf8_len(query)) {
                    Err(UrlError::TooLong)
                } else {
                    match url_with_path_and_query(up, merged, opt_view(query)) {
                        None => Err(UrlError::Invalid),
                        Some(u) => Ok(u),
                    }
                }
            },
        },
    }
}

/// Whether a URL serialized in `serialization_len` bytes takes a path of
/// `path_len` bytes and a query of `query_len` bytes within the `url` crate's
/// size limit.
pub fn url_edit_fits(serialization_len: u128, path_len: u128, query_len: u128) -> (r: bool)
    ensures
        r == edit_fits(serialization_len as nat, path_len as nat, query_len as nat),
{
    let limit: u128 = 0xffff_ffff;
    if serialization_len > limit || path_len > limit || query_len > limit {
        false
    } else {
        serialization_len + 3 * path_len + 3 * query_len + 2 <= limit
    }
}

/// The upstream path `base_path` (trailing slashes dropped) followed by `suffix`.
pub fn merge_upstream_path(base_path: &str, suffix: &str) -> (r: String)
    ensures
        r@ == merged_path(base_path@, suffix@),
{
    let base = trim_end_char(base_path, '/');
    let bv = chars_of(base);
    let sv = chars_of(suffix);
    if bv.len() == 0 || is_root_str(&bv) {
        let mut r = "/".to_owned();
        proof {
            reveal_strlit("/");
        }
        assert(r@ == seq!['/']);
        r.append(suffix);
        assert(sv.len() == 0 ==> suffix@ == Seq::<char>::empty());
        r
    } else if sv.len() == 0 {
        base.to_owned()
    } else {
        let mut r = base.to_owned();
        push_char(&mut r, '/');
        r.append(suffix);
        r
    }
}

/// With prefix stripping, a request for the route's prefix `q` (given in
/// the configuration as `q` followed by slashes) leaves nothing to append,
/// and a request for `q`, some slashes and `rest` appends `rest`.
pub proof fn lemma_request_suffix_strips_prefix(
    route: RouteConfig,
    q: Seq<char>,
    t: Seq<char>,
    slashes: Seq<char>,
    rest: Seq<char>,
)
    requires
        route.strip_prefix,
        route.prefix@ == q + t,
        q.len() > 0,
        q.last() != '/',
        forall|i: int| 0 <= i < t.len() ==> t[i] == '/',
        slashes.len() > 0,
        forall|i: int| 0 <= i < slashes.len() ==> slashes[i] == '/',
        rest.len() == 0 || rest[0] != '/',
    ensures
        request_suffix(route, q).len() == 0,
        request_suffix(route, q + slashes + rest) == rest,
{
    lemma_strip_trailing_append(q, t, CharSet::Only('/'));
    assert(q[q.len() - 1] != '/');
    assert(strip_trailing(q, CharSet::Only('/')) == q);
    assert(q + t != seq!['/']);
    assert(normalized(route.prefix@) == q);
    let path = q + slashes + rest;
    assert(path.take(q.len() as int) =~= q);
    assert(path.skip(q.len() as int) =~= slashes + rest);
    lemma_strip_leading_prepend(slashes, rest, CharSet::Only('/'));
    assert(q.take(q.len() as int) =~= q);
    assert(q.skip(q.len() as int) =~= Seq::<char>::empty());
}

/// Without prefix stripping, the whole request path is appended, less its
/// leading slashes.
pub proof fn lemma_request_suffix_keeps_path(route: RouteConfig, slashes: Seq<char>, rest: Seq<char>)
    requires
        !route.strip_prefix,
        forall|i: int| 0 <= i < slashes.len() ==> slashes[i] == '/',
        rest.len() == 0 || rest[0] != '/',
    ensures
        request_suffix(route, slashes + rest) == rest,
{
    lemma_strip_leading_prepend(slashes, rest, CharSet::Only('/'));
}

/// For an upstream path `b` followed by slashes: with nothing to append the
/// path is `b` (or `/` when `b` is empty); otherwise it is `b`, one `/` and
/// the appended text.
pub proof fn lemma_merged_path_joins(b: Seq<char>, slashes: Seq<char>, suffix: Seq<char>)
    requires
        b.len() == 0 || b.last() != '/',
        forall|i: int| 0 <= i < slashes.len() ==> slashes[i] == '/',
    ensures
        merged_path(b + slashes, suffix) == if b.len() == 0 {
            seq!['/'] + suffix
        } else if suffix.len() == 0 {
            b
        } else {
            b + seq!['/'] + suffix
        },
{
    lemma_strip_trailing_append(b, slashes, CharSet::Only('/'));
    assert(strip_trailing(b, CharSet::Only('/')) == b);
    if b.len() > 0 {
        assert(b[b.len() - 1] != '/');
        assert(b != seq!['/']);
    } else {
        assert(seq!['/'] + Seq::<char>::empty() =~= seq!['/']);
    }
}

/// Text of an upstream URL as the `url` crate serializes it (`Url::parse`
/// followed by `Url::as_str`).
pub fn normalize_upstream(text: &str) -> (r: Result<String, UrlError>)
    ensures
        match r {
            Ok(u) => url_serialization(text@) == Some(u@),
            Err(e) => e == UrlError::Invalid && url_serialization(text@) is None,
        },
{
    match parse_url_text(text) {
        Some(u) => Ok(u),
        None => Err(UrlError::Invalid),
    }
}

impl RouteConfig {
    /// The part of `path` that is appended to the upstream path.
    pub fn request_suffix<'a>(&self, path: &'a str) -> (r: &'a str)
        ensures
            r@ == request_suffix(*self, path@),
    {
        let prefix = normalized_prefix(self.prefix.as_str());
        let pv = chars_of(prefix);
        let path_v = chars_of(path);
        let rest = if self.strip_prefix && has_prefix(&path_v, &pv) {
            path.substring_char(pv.len(), path_v.len())
        } else {
            path
        };
        trim_start_char(rest, '/')
    }

    /// The upstream address for a request to `path` with `query`.
    pub fn upstream_url(&self, path: &str, query: Option<&str>) -> (r: Result<String, UrlError>)
        ensures
            match r {
                Ok(u) => upstream_outcome(*self, path@, query) == Ok::<Seq<char>, UrlError>(u@),
                Err(e) => upstream_outcome(*self, path@, query) == Err::<Seq<char>, UrlError>(e),
            },
            r == Err::<String, UrlError>(UrlError::Invalid) <==> url_serialization(
                self.upstream@,
            ) is None,
    {
        let serialization = match parse_url_text(self.upstream.as_str()) {
            Some(t) => t,
            None => return Err(UrlError::Invalid),
        };
        let suffix = self.request_suffix(path);
        let base = match url_path_of(self.upstream.as_str()) {
            Some(b) => b,
            None => return Err(UrlError::Invalid),
        };
        let merged = merge_upstream_path(base.as_str(), suffix);
        let query_len = match query {
            Some(q) => utf8_byte_len(q),
            None => 0,
        };
        if !url_edit_fits(
            utf8_byte_len(serialization.as_str()),
            utf8_byte_len(merged.as_str()),
            query_len,
        ) {
            return Err(UrlError::TooLong);
        }
        match replace_url_path_and_query(self.upstream.as_str(), merged.as_str(), query) {
            Some(u) => Ok(u),
            None => Err(UrlError::Invalid),
        }
    }
}

/// Whenever an upstream address is built, it is the upstream URL with the
/// merged path and with the request's own query set, whether or not any
/// path is left after the prefix.
pub proof fn lemma_upstream_keeps_query(route: RouteConfig, path: Seq<char>, query: Option<&str>)
    ensures
        upstream_outcome(route, path, query) matches Ok(u) ==> {
            &&& url_path(route.upstream@) is Some
            &&& url_with_path_and_query(
                route.upstream@,
                merged_path(url_path(route.upstream@)->0, request_suffix(route, path)),
                opt_view(query),
            ) == Some(u)
        },
{
}

/// The example configuration that `init` writes and `example-config` prints.
pub open spec fn example_toml_text() -> Seq<char> {
    "# Itadori gateway configuration\n\n[server]\nbind = \"127.0.0.1:8787\"\nmax_body_bytes = 10485760\nrequest_timeout_ms = 30000\n\n[[routes]]\nname = \"jira\"\nprefix = \"/jira\"\nupstream = \"https://jira.internal.example.com\"\nstrip_prefix = true\ntimeout_ms = 15000\n\n[routes.headers]\nx-team = \"platform\"\n\n[[routes]]\nname = \"slack\"\nprefix = \"/slack\"\nupstream = \"https://slack.com/api\"\nstrip_prefix = true\n"@
}

impl GatewayConfig {
    /// The example configuration file.
    pub fn example_toml() -> (t: &'static str)
        ensures
            t@ == example_toml_text(),
    {
        "# Itadori gateway configuration\n\n[server]\nbind = \"127.0.0.1:8787\"\nmax_body_bytes = 10485760\nrequest_timeout_ms = 30000\n\n[[routes]]\nname = \"jira\"\nprefix = \"/jira\"\nupstream = \"https://jira.internal.example.com\"\nstrip_prefix = true\ntimeout_ms = 15000\n\n[routes.headers]\nx-team = \"platform\"\n\n[[routes]]\nname = \"slack\"\nprefix = \"/slack\"\nupstream = \"https://slack.com/api\"\nstrip_prefix = true\n"
    }
}

/// `127.0.0.1:8787`.
pub fn default_bind() -> (b: BindAddr)
    ensures
        b == (BindAddr::V4 { ip: 0x7f00_0001, port: 8787 }),
{
    BindAddr::V4 { ip: 0x7f00_0001, port: 8787 }
}

/// 10 MiB.
pub fn default_max_body_bytes() -> (n: usize)
    ensures
        n == 10 * 1024 * 1024,
{
    10 * 1024 * 1024
}

/// 30 seconds.
pub fn default_request_timeout_ms() -> (n: u64)
    ensures
        n == 30_000,
{
    30_000
}

/// Routes strip their prefix unless told otherwise.
pub fn default_true() -> (b: bool)
    ensures
        b,
{
    true
}

/// The server section that an empty file gives.
pub open spec fn default_server() -> ServerConfig {
    ServerConfig {
        bind: BindAddr::V4 { ip: 0x7f00_0001, port: 8787 },
        max_body_bytes: 10_485_760usize,
        request_timeout_ms: 30_000u64,
    }
}

impl Default for ServerConfig {
    fn default() -> (s: Self)
        ensures
            s == default_server(),
    {
        ServerConfig {
            bind: default_bind(),
            max_body_bytes: default_max_body_bytes(),
            request_timeout_ms: default_request_timeout_ms(),
        }
    }
}

impl Default for GatewayConfig {
    fn default() -> (c: Self)
        ensures
            c.server == default_server(),
            c.routes@.len() == 0,
    {
        GatewayConfig { server: ServerConfig::default(), routes: Vec::new() }
    }
}

/// `base` joined with the relative path `rel` (what `Path::join` gives for a
/// relative argument on Unix).
pub open spec fn join_relative(base: Seq<char>, rel: Seq<char>) -> Seq<char> {
    if base.len() == 0 {
        rel
    } else if base.last() == '/' {
        base + rel
    } else {
        base + seq!['/'] + rel
    }
}

/// `base` joined with the relative path `rel`.
pub fn join_relative_path(base: &str, rel: &str) -> (r: String)
    ensures
        r@ == join_relative(base@, rel@),
{
    let v = chars_of(base);
    if v.len() == 0 {
        return rel.to_owned();
    }
    let mut r = base.to_owned();
    if v[v.len() - 1] != '/' {
        push_char(&mut r, '/');
    }
    r.append(rel);
    r
}

pub open spec fn home_of(home: Option<&str>) -> Seq<char> {
    match home {
        Some(h) => h@,
        None => "."@,
    }
}

/// The home directory: `$HOME` when it is set, else `.`.
pub fn home_dir(home: Option<&str>) -> (r: String)
    ensures
        r@ == home_of(home),
{
    match home {
        Some(h) => h.to_owned(),
        None => ".".to_owned(),
    }
}

pub open spec fn config_dir_of(home: Option<&str>) -> Seq<char> {
    join_relative(home_of(home), ".config"@)
}

/// `<home>/.config`, where `home` is the value of `$HOME` if set.
pub fn config_dir(home: Option<&str>) -> (r: String)
    ensures
        r@ == config_dir_of(home),
{
    let h = home_dir(home);
    join_relative_path(h.as_str(), ".config")
}

/// `<home>/.config/itadori.toml`.
pub fn default_config_path(home: Option<&str>) -> (r: String)
    ensures
        r@ == join_relative(config_dir_of(home), "itadori.toml"@),
{
    let d = config_dir(home);
    join_relative_path(d.as_str(), "itadori.toml")
}

/// `<home>/.config/itadori.pid`.
pub fn default_pid_path(home: Option<&str>) -> (r: String)
    ensures
        r@ == join_relative(config_dir_of(home), "itadori.pid"@),
{
    let d = config_dir(home);
    join_relative_path(d.as_str(), "itadori.pid")
}

} // verus!
