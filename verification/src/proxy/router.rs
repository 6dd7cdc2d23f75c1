//! The reverse proxy's route table and the decisions taken per request.

use vstd::prelude::*;
use vstd::string::*;
use vstd::utf8::encode_utf8;
use crate::domain::{Application, ApplicationView, names_view, opt_view};
use crate::lifecycle::manager::status_class;
use crate::lifecycle::report::stored_text;
use crate::text::{chars_of, has_prefix, is_prefix, push_str, str_eq};

verus! {

/// What `Uri::from_str` makes of a text: `None` when it does not parse,
/// else the URI's scheme and authority, each when present.
pub uninterp spec fn uri_parts(text: Seq<char>) -> Option<(Option<Seq<char>>, Option<Seq<char>>)>;

/// Parses `text` as an `axum::http::Uri` and hands back its scheme and
/// authority as text (the `uri_parts` name; the URI grammar is not stated).
#[verifier::external_body]
fn parse_uri_parts(text: &str) -> (r: Option<(Option<String>, Option<String>)>)
    ensures
        match r {
            Some(p) => uri_parts(text@) == Some((opt_view(p.0), opt_view(p.1))),
            None => uri_parts(text@) is None,
        },
{
    let uri: axum::http::Uri = match text.parse() {
        Ok(u) => u,
        Err(_) => return None,
    };
    let scheme = match uri.scheme_str() {
        Some(s) => Some(s.to_string()),
        None => None,
    };
    let authority = match uri.authority() {
        Some(a) => Some(a.as_str().to_string()),
        None => None,
    };
    Some((scheme, authority))
}

/// `scheme://host:port` of a health URL: its scheme (`http` when it has
/// none), `://`, and its authority; `None` when the URL does not parse or
/// has no authority.
pub open spec fn backend_base(url: Seq<char>) -> Option<Seq<char>> {
    match uri_parts(url) {
        Some((scheme, Some(authority))) => Some(
            match scheme {
                Some(s) => s,
                None => "http"@,
            } + "://"@ + authority,
        ),
        _ => None,
    }
}

/// Derives `scheme://host:port` from a health check URL (see `backend_base`).
pub fn derive_backend_base(health_url: &str) -> (r: Option<String>)
    ensures
        opt_view(r) == backend_base(health_url@),
{
    let (scheme, authority) = match parse_uri_parts(health_url) {
        Some(p) => p,
        None => return None,
    };
    let authority = match authority {
        Some(a) => a,
        None => return None,
    };
    let mut base = match scheme {
        Some(s) => s,
        None => String::from_str("http"),
    };
    push_str(&mut base, "://");
    push_str(&mut base, authority.as_str());
    Some(base)
}

/// The owner and backend of one route.
#[derive(Clone, Debug, PartialEq, Eq)]
pub struct RouteEntry {
    /// Name of the owning application.
    pub app_name: String,
    /// `scheme://host:port` derived from the application's health URL.
    pub backend_base: String,
}

/// Why an application contributes no routes.
#[derive(Clone, Debug, PartialEq, Eq)]
pub enum SkipReason {
    /// It has no `health.backend`.
    NoHealthUrl,
    /// Its health URL gives no backend base.
    UnparsableHealthUrl(String),
}

/// The proxy's routes, longest prefix (in bytes) first.
pub struct RouteTable {
    pub routes: Vec<(String, RouteEntry)>,
    /// The applications left out, with the reason.
    pub skipped: Vec<(String, SkipReason)>,
}

/// The backend base of an application, when it has a usable health URL.
pub open spec fn app_backend(a: ApplicationView) -> Option<Seq<char>> {
    match a.backend {
        Some(u) => backend_base(u),
        None => None,
    }
}

/// Every route prefix mapped to its owner and backend; when several
/// applications list a prefix, the last of them in registry order owns it.
pub open spec fn route_map(apps: Seq<ApplicationView>) -> Map<Seq<char>, (Seq<char>, Seq<char>)>
    decreases apps.len(),
{
    if apps.len() == 0 {
        Map::empty()
    } else {
        let m = route_map(apps.drop_last());
        let a = apps.last();
        match app_backend(a) {
            Some(b) => m.union_prefer_right(Map::new(|p: Seq<char>| a.routes.contains(p), |p: Seq<char>| (a.name, b))),
            None => m,
        }
    }
}

/// The length in bytes of a text's UTF-8 encoding, as `str::len` gives it.
pub open spec fn byte_len(s: Seq<char>) -> usize {
    encode_utf8(s).len() as usize
}

impl RouteTable {
    pub open spec fn prefix(&self, i: int) -> Seq<char> {
        self.routes@[i].0@
    }

    /// The table's entries, as a map from prefix to owner and backend.
    pub open spec fn as_map(&self) -> Map<Seq<char>, (Seq<char>, Seq<char>)> {
        Map::new(
            |p: Seq<char>| exists|i: int| 0 <= i < self.routes@.len() && self.prefix(i) == p,
            |p: Seq<char>| {
                let i = choose|i: int| 0 <= i < self.routes@.len() && self.prefix(i) == p;
                (self.routes@[i].1.app_name@, self.routes@[i].1.backend_base@)
            },
        )
    }

    /// No prefix appears twice, and longer prefixes (in bytes) come first.
    pub open spec fn well_ordered(&self) -> bool {
        &&& forall|i: int, j: int| 0 <= i < j < self.routes@.len() ==> self.prefix(i) != self.prefix(j)
        &&& forall|i: int, j: int| 0 <= i < j < self.routes@.len() ==> byte_len(self.prefix(i)) >= byte_len(self.prefix(j))
    }
}

pub open spec fn entry_value(e: (String, RouteEntry)) -> (Seq<char>, Seq<char>) {
    (e.1.app_name@, e.1.backend_base@)
}

/// The entries `rs` hold exactly the map `m`.
pub open spec fn holds_map(rs: Seq<(String, RouteEntry)>, m: Map<Seq<char>, (Seq<char>, Seq<char>)>) -> bool {
    &&& forall|i: int| 0 <= i < rs.len() ==> m.contains_key((#[trigger] rs[i]).0@) && m[rs[i].0@] == entry_value(rs[i])
    &&& forall|k: Seq<char>| m.contains_key(k) ==> exists|i: int| 0 <= i < rs.len() && (#[trigger] rs[i]).0@ == k
}

/// No prefix twice; prefixes with more bytes first.
pub open spec fn ordered(rs: Seq<(String, RouteEntry)>) -> bool {
    &&& forall|i: int, j: int| 0 <= i < j < rs.len() ==> (#[trigger] rs[i]).0@ != (#[trigger] rs[j]).0@
    &&& forall|i: int, j: int| 0 <= i < j < rs.len() ==> byte_len((#[trigger] rs[i]).0@) >= byte_len((#[trigger] rs[j]).0@)
}

proof fn lemma_as_map(t: &RouteTable, m: Map<Seq<char>, (Seq<char>, Seq<char>)>)
    requires
        ordered(t.routes@),
        holds_map(t.routes@, m),
    ensures
        t.as_map() == m,
{
    assert forall|k: Seq<char>| #[trigger] t.as_map().contains_key(k) <==> m.contains_key(k) by {
        if m.contains_key(k) {
            let i = choose|i: int| 0 <= i < t.routes@.len() && (#[trigger] t.routes@[i]).0@ == k;
            assert(t.prefix(i) == k);
        }
        if t.as_map().contains_key(k) {
            let i = choose|i: int| 0 <= i < t.routes@.len() && t.prefix(i) == k;
            assert(m.contains_key(t.routes@[i].0@));
        }
    }
    assert forall|k: Seq<char>| #[trigger] t.as_map().contains_key(k) implies t.as_map()[k] == m[k] by {
        let i = choose|i: int| 0 <= i < t.routes@.len() && t.prefix(i) == k;
        assert(m[t.routes@[i].0@] == entry_value(t.routes@[i]));
    }
    assert(t.as_map() =~= m);
}

fn clone_entry(e: &RouteEntry) -> (r: RouteEntry)
    ensures
        r.app_name@ == e.app_name@,
        r.backend_base@ == e.backend_base@,
{
    RouteEntry { app_name: e.app_name.clone(), backend_base: e.backend_base.clone() }
}

/// Adds `prefix -> entry`, replacing the entry of an equal prefix and
/// otherwise keeping longer prefixes first.
fn insert_route(
    routes: &mut Vec<(String, RouteEntry)>,
    prefix: String,
    entry: RouteEntry,
    Ghost(m): Ghost<Map<Seq<char>, (Seq<char>, Seq<char>)>>,
)
    requires
        ordered(old(routes)@),
        holds_map(old(routes)@, m),
    ensures
        ordered(final(routes)@),
        holds_map(final(routes)@, m.insert(prefix@, (entry.app_name@, entry.backend_base@))),
{
    let ghost v = (entry.app_name@, entry.backend_base@);
    let ghost m2 = m.insert(prefix@, v);
    let n = routes.len();
    let pc = chars_of(prefix.as_str());
    for i in 0..n
        invariant
            n == routes@.len(),
            pc@ == prefix@,
            ordered(routes@),
            holds_map(routes@, m),
            v == (entry.app_name@, entry.backend_base@),
            m2 == m.insert(prefix@, v),
            forall|j: int| 0 <= j < i ==> (#[trigger] routes@[j]).0@ != prefix@,
    {
        if str_eq(routes[i].0.as_str(), prefix.as_str()) {
            let ghost old_rs = routes@;
            let e = (routes[i].0.clone(), entry);
            routes.set(i, e);
            assert forall|k: Seq<char>| m2.contains_key(k) implies exists|j: int| 0 <= j < routes@.len() && (#[trigger] routes@[j]).0@ == k by {
                if k != prefix@ {
                    assert(m.contains_key(k));
                    assert(exists|j: int| 0 <= j < old_rs.len() && (#[trigger] old_rs[j]).0@ == k);
                    let j = choose|j: int| 0 <= j < old_rs.len() && (#[trigger] old_rs[j]).0@ == k;
                    assert(routes@[j] == old_rs[j]);
                } else {
                    assert(routes@[i as int].0@ == k);
                }
            }
            assert forall|j: int| 0 <= j < routes@.len() implies m2.contains_key((#[trigger] routes@[j]).0@) && m2[routes@[j].0@] == entry_value(routes@[j]) by {
                if j != i {
                    assert(routes@[j] == old_rs[j]);
                    assert(old_rs[j].0@ != old_rs[i as int].0@);
                }
            }
            return;
        }
    }
    // A new prefix: it goes before the first entry with fewer bytes.
    let len = prefix.as_str().len();
    let mut pos: usize = 0;
    while pos < n && routes[pos].0.as_str().len() >= len
        invariant
            n == routes@.len(),
            pos <= n,
            len == byte_len(prefix@),
            forall|j: int| 0 <= j < pos ==> byte_len((#[trigger] routes@[j]).0@) >= byte_len(prefix@),
        decreases n - pos,
    {
        pos = pos + 1;
    }
    proof {
        if pos < n {
            assert(byte_len(routes@[pos as int].0@) < byte_len(prefix@));
        }
    }
    let ghost old_rs = routes@;
    routes.insert(pos, (prefix, entry));
    proof {
        old_rs.insert_ensures(pos as int, routes@[pos as int]);
        assert forall|k: Seq<char>| m2.contains_key(k) implies exists|j: int| 0 <= j < routes@.len() && (#[trigger] routes@[j]).0@ == k by {
            if k != prefix@ {
                assert(m.contains_key(k));
                assert(exists|j: int| 0 <= j < old_rs.len() && (#[trigger] old_rs[j]).0@ == k);
                let j = choose|j: int| 0 <= j < old_rs.len() && (#[trigger] old_rs[j]).0@ == k;
                if j < pos {
                    assert(routes@[j] == old_rs[j]);
                } else {
                    assert(routes@[j + 1] == old_rs[j]);
                }
            } else {
                assert(routes@[pos as int].0@ == k);
            }
        }
        assert forall|j: int| 0 <= j < routes@.len() implies m2.contains_key((#[trigger] routes@[j]).0@) && m2[routes@[j].0@] == entry_value(routes@[j]) by {
            if j < pos {
                assert(routes@[j] == old_rs[j]);
            } else if j > pos {
                assert(routes@[j] == old_rs[j - 1]);
            }
        }
        assert forall|a: int, b: int| 0 <= a < b < routes@.len() implies (#[trigger] routes@[a]).0@ != (#[trigger] routes@[b]).0@ by {
            if a < pos && b < pos {
                assert(routes@[a] == old_rs[a] && routes@[b] == old_rs[b]);
            } else if a < pos && b == pos {
                assert(routes@[a] == old_rs[a]);
            } else if a < pos {
                assert(routes@[a] == old_rs[a] && routes@[b] == old_rs[b - 1]);
            } else if a == pos {
                assert(routes@[b] == old_rs[b - 1]);
            } else {
                assert(routes@[a] == old_rs[a - 1] && routes@[b] == old_rs[b - 1]);
            }
        }
        assert forall|a: int, b: int| 0 <= a < b < routes@.len() implies byte_len((#[trigger] routes@[a]).0@) >= byte_len((#[trigger] routes@[b]).0@) by {
            if a < pos && b < pos {
                assert(routes@[a] == old_rs[a] && routes@[b] == old_rs[b]);
            } else if a < pos && b == pos {
                assert(routes@[a] == old_rs[a]);
            } else if a < pos {
                assert(routes@[a] == old_rs[a] && routes@[b] == old_rs[b - 1]);
                assert(byte_len(old_rs[a].0@) >= byte_len(old_rs[pos as int].0@));
            } else if a == pos {
                assert(routes@[b] == old_rs[b - 1]);
                assert(byte_len(old_rs[pos as int].0@) >= byte_len(old_rs[b - 1].0@));
            } else {
                assert(routes@[a] == old_rs[a - 1] && routes@[b] == old_rs[b - 1]);
            }
        }
    }
}

/// `m` with every prefix of `routes` mapped to `v`.
pub open spec fn with_routes(
    m: Map<Seq<char>, (Seq<char>, Seq<char>)>,
    routes: Seq<Seq<char>>,
    v: (Seq<char>, Seq<char>),
) -> Map<Seq<char>, (Seq<char>, Seq<char>)> {
    m.union_prefer_right(Map::new(|p: Seq<char>| routes.contains(p), |p: Seq<char>| v))
}

proof fn lemma_with_routes_step(
    m: Map<Seq<char>, (Seq<char>, Seq<char>)>,
    routes: Seq<Seq<char>>,
    v: (Seq<char>, Seq<char>),
    j: int,
)
    requires
        0 <= j < routes.len(),
    ensures
        with_routes(m, routes.take(j + 1), v) == with_routes(m, routes.take(j), v).insert(routes[j], v),
{
    let a = with_routes(m, routes.take(j + 1), v);
    let b = with_routes(m, routes.take(j), v).insert(routes[j], v);
    let t1 = routes.take(j + 1);
    let t0 = routes.take(j);
    assert forall|p: Seq<char>| a.contains_key(p) <==> b.contains_key(p) by {
        if t1.contains(p) && p != routes[j] {
            let k = choose|k: int| 0 <= k < t1.len() && #[trigger] t1[k] == p;
            assert(t0[k] == p);
        }
        if t0.contains(p) {
            let k = choose|k: int| 0 <= k < t0.len() && #[trigger] t0[k] == p;
            assert(t1[k] == p);
        }
        if p == routes[j] {
            assert(routes.take(j + 1)[j] == p);
        }
    }
    assert forall|p: Seq<char>| a.contains_key(p) implies a[p] == b[p] by {
        if p == routes[j] {
            assert(t1[j] == p);
        }
        if p != routes[j] && !t1.contains(p) {
            assert(!t0.contains(p)) by {
                if t0.contains(p) {
                    let k = choose|k: int| 0 <= k < t0.len() && #[trigger] t0[k] == p;
                    assert(t1[k] == p);
                }
            }
        }
        if p != routes[j] && t1.contains(p) {
            let k = choose|k: int| 0 <= k < t1.len() && #[trigger] t1[k] == p;
            assert(t0[k] == p);
        }
    }
    assert(a =~= b);
}

/// The applications that contribute no routes, in registry order, each with
/// its health URL when it has one (then that URL gives no backend base).
pub open spec fn skipped_apps(apps: Seq<ApplicationView>) -> Seq<(Seq<char>, Option<Seq<char>>)>
    decreases apps.len(),
{
    if apps.len() == 0 {
        Seq::empty()
    } else if app_backend(apps.last()) is Some {
        skipped_apps(apps.drop_last())
    } else {
        skipped_apps(apps.drop_last()).push((apps.last().name, apps.last().backend))
    }
}

pub open spec fn skip_view(s: (String, SkipReason)) -> (Seq<char>, Option<Seq<char>>) {
    (s.0@, match s.1 {
        SkipReason::NoHealthUrl => None,
        SkipReason::UnparsableHealthUrl(u) => Some(u@),
    })
}

impl RouteTable {
    /// The route table of the given applications: each route prefix of each
    /// application with a usable health URL, owned by the last application
    /// listing it (see `route_map`), longest prefix first.
    pub fn build(apps: &[Application]) -> (t: RouteTable)
        ensures
            t.well_ordered(),
            t.as_map() == route_map(apps@.map_values(|a: Application| a@)),
            t.skipped@.map_values(|s: (String, SkipReason)| skip_view(s)) == skipped_apps(apps@.map_values(|a: Application| a@)),
    {
        let ghost av = apps@.map_values(|a: Application| a@);
        let mut routes: Vec<(String, RouteEntry)> = Vec::new();
        let mut skipped: Vec<(String, SkipReason)> = Vec::new();
        let n = apps.len();
        for i in 0..n
            invariant
                n == apps@.len(),
                av == apps@.map_values(|a: Application| a@),
                ordered(routes@),
                holds_map(routes@, route_map(av.take(i as int))),
                skipped@.map_values(|s: (String, SkipReason)| skip_view(s)) == skipped_apps(av.take(i as int)),
        {
            let app = &apps[i];
            let ghost a = av[i as int];
            assert(a == app@);
            assert(av.take(i + 1).drop_last() =~= av.take(i as int));
            assert(av.take(i + 1).last() == a);
            let ghost m0 = route_map(av.take(i as int));
            let ghost sk0 = skipped@.map_values(|s: (String, SkipReason)| skip_view(s));
            let found = match &app.health.backend {
                None => {
                    skipped.push((app.name.clone(), SkipReason::NoHealthUrl));
                    assert(skipped@.map_values(|s: (String, SkipReason)| skip_view(s)) =~= sk0.push((a.name, a.backend)));
                    None
                },
                Some(url) => match derive_backend_base(url.as_str()) {
                    None => {
                        skipped.push((app.name.clone(), SkipReason::UnparsableHealthUrl(url.clone())));
                        assert(skipped@.map_values(|s: (String, SkipReason)| skip_view(s)) =~= sk0.push((a.name, a.backend)));
                        None
                    },
                    Some(b) => Some(b),
                },
            };
            if let Some(base) = found {
            let ghost v = (a.name, base@);
            let m = app.routes.len();
            for j in 0..m
                invariant
                    m == app.routes@.len(),
                    a == app@,
                    v == (app.name@, base@),
                    ordered(routes@),
                    holds_map(routes@, with_routes(m0, a.routes.take(j as int), v)),
            {
                proof {
                    lemma_with_routes_step(m0, a.routes, v, j as int);
                    assert(a.routes[j as int] == app.routes@[j as int]@);
                }
                insert_route(
                    &mut routes,
                    app.routes[j].clone(),
                    RouteEntry { app_name: app.name.clone(), backend_base: base.clone() },
                    Ghost(with_routes(m0, a.routes.take(j as int), v)),
                );
            }
            assert(a.routes.take(m as int) =~= a.routes);
            }
        }
        assert(av.take(n as int) =~= av);
        let t = RouteTable { routes, skipped };
        proof {
            lemma_as_map(&t, route_map(av));
        }
        t
    }
}

/// `prefix` matches `path` at a segment boundary: it is a prefix of `path`,
/// and `path` ends there or goes on with `/`.
pub open spec fn segment_match(prefix: Seq<char>, path: Seq<char>) -> bool {
    &&& is_prefix(prefix, path)
    &&& (path.len() == prefix.len() || path[prefix.len() as int] == '/')
}

/// `?` and the query, when there is one.
pub open spec fn query_suffix(query: Option<Seq<char>>) -> Seq<char> {
    match query {
        Some(q) => "?"@ + q,
        None => Seq::empty(),
    }
}

/// The path sent to the backend: the path with the route prefix taken off,
/// `/` when nothing is left.
pub open spec fn forwarded_path(prefix: Seq<char>, path: Seq<char>) -> Seq<char> {
    let rest = path.subrange(prefix.len() as int, path.len() as int);
    if rest.len() == 0 {
        "/"@
    } else {
        rest
    }
}

/// Law (forwarded path): for a path that a route prefix begins, the backend
/// gets the rest of the path after the prefix, character for character (so
/// the prefix and the forwarded path spell the request's path again), or
/// `/` when nothing is left.
pub proof fn law_forwarded_path(prefix: Seq<char>, path: Seq<char>)
    requires
        is_prefix(prefix, path),
    ensures
        path.len() > prefix.len() ==> prefix + forwarded_path(prefix, path) == path,
        path.len() == prefix.len() ==> forwarded_path(prefix, path) == "/"@,
{
    if path.len() > prefix.len() {
        assert(prefix + path.subrange(prefix.len() as int, path.len() as int) =~= path);
    }
}

/// Where the proxy sends a request.
#[derive(Clone, Debug, PartialEq, Eq)]
pub enum ProxyTarget {
    /// No route matched: the dashboard serves it.
    Dashboard { target: String },
    /// A route matched: the owning application's backend serves it.
    Route { app_name: String, target: String },
}

pub enum ProxyTargetView {
    Dashboard { target: Seq<char> },
    Route { app_name: Seq<char>, target: Seq<char> },
}

impl View for ProxyTarget {
    type V = ProxyTargetView;

    open spec fn view(&self) -> ProxyTargetView {
        match self {
            ProxyTarget::Dashboard { target } => ProxyTargetView::Dashboard { target: target@ },
            ProxyTarget::Route { app_name, target } => ProxyTargetView::Route { app_name: app_name@, target: target@ },
        }
    }
}

impl RouteTable {
    /// The first route whose prefix matches `path` at a segment boundary.
    pub open spec fn first_match(&self, path: Seq<char>, i: int) -> bool {
        &&& 0 <= i < self.routes@.len()
        &&& segment_match(self.prefix(i), path)
        &&& forall|j: int| 0 <= j < i ==> !segment_match(#[trigger] self.prefix(j), path)
    }

    /// The index of the first route matching `path` (see `first_match`).
    pub fn match_route(&self, path: &str) -> (r: Option<usize>)
        ensures
            match r {
                Some(i) => self.first_match(path@, i as int),
                None => forall|j: int| 0 <= j < self.routes@.len() ==> !segment_match(#[trigger] self.prefix(j), path@),
            },
    {
        let pc = chars_of(path);
        let n = self.routes.len();
        for i in 0..n
            invariant
                n == self.routes@.len(),
                pc@ == path@,
                forall|j: int| 0 <= j < i ==> !segment_match(#[trigger] self.prefix(j), path@),
        {
            let rc = chars_of(self.routes[i].0.as_str());
            if has_prefix(&rc, &pc) && (pc.len() == rc.len() || pc[rc.len()] == '/') {
                return Some(i);
            }
        }
        None
    }

    /// Where a request for `path` (with `query`) goes: the backend of the
    /// first matching route, with the path as `forwarded_path` gives it, or
    /// else `dashboard_base` with the whole path; the query follows either.
    pub fn plan(&self, path: &str, query: Option<&str>, dashboard_base: &str) -> (t: ProxyTarget)
        ensures
            match t@ {
                ProxyTargetView::Dashboard { target } => {
                    &&& forall|j: int| 0 <= j < self.routes@.len() ==> !segment_match(#[trigger] self.prefix(j), path@)
                    &&& target == dashboard_base@ + path@ + query_suffix(match query { Some(q) => Some(q@), None => None })
                },
                ProxyTargetView::Route { app_name, target } => exists|i: int| {
                    &&& self.first_match(path@, i)
                    &&& app_name == self.routes@[i].1.app_name@
                    &&& target == self.routes@[i].1.backend_base@ + forwarded_path(self.prefix(i), path@)
                        + query_suffix(match query { Some(q) => Some(q@), None => None })
                    &&& target == self.routes@[i].1.backend_base@ + (if path@.len() == self.prefix(i).len() {
                        "/"@
                    } else {
                        path@.subrange(self.prefix(i).len() as int, path@.len() as int)
                    }) + query_suffix(match query { Some(q) => Some(q@), None => None })
                },
            },
    {
        match self.match_route(path) {
            None => {
                let mut target = String::from_str(dashboard_base);
                push_str(&mut target, path);
                if let Some(q) = query {
                    push_str(&mut target, "?");
                    push_str(&mut target, q);
                }
                ProxyTarget::Dashboard { target }
            },
            Some(i) => {
                let entry = &self.routes[i].1;
                let mut target = entry.backend_base.clone();
                let pc = chars_of(path);
                let skip = chars_of(self.routes[i].0.as_str()).len();
                let mut rest: Vec<char> = Vec::new();
                let mut k = skip;
                while k < pc.len()
                    invariant
                        skip <= k <= pc@.len(),
                        rest@ == pc@.subrange(skip as int, k as int),
                    decreases pc@.len() - k,
                {
                    rest.push(pc[k]);
                    k = k + 1;
                    assert(rest@ =~= pc@.subrange(skip as int, k as int));
                }
                if rest.len() == 0 {
                    push_str(&mut target, "/");
                } else {
                    let r = crate::text::string_of(&rest);
                    push_str(&mut target, r.as_str());
                }
                if let Some(q) = query {
                    push_str(&mut target, "?");
                    push_str(&mut target, q);
                }
                let t = ProxyTarget::Route { app_name: entry.app_name.clone(), target };
                assert(self.first_match(path@, i as int));
                t
            },
        }
    }
}

/// Whether a routed request must first start its application: the stored
/// state (an absent or unreadable one counting as `"stopped"`) is not running.
pub fn needs_wake(raw: &Option<String>) -> (r: bool)
    ensures
        r == (status_class(stored_text(opt_view(*raw))) != "running"@),
{
    let text = match raw {
        Some(s) => s.clone(),
        None => String::from_str("stopped"),
    };
    let status = crate::lifecycle::manager::normalize_status(text.as_str());
    !str_eq(status.as_str(), "running")
}

/// The body of the answer when an application could not be woken:
/// `pulse proxy: could not start '<app>': <error>`.
pub fn wake_failure_body(app: &str, error: &str) -> (s: String)
    ensures
        s@ == "pulse proxy: could not start '"@ + app@ + "': "@ + error@,
{
    let mut s = String::from_str("pulse proxy: could not start '");
    push_str(&mut s, app);
    push_str(&mut s, "': ");
    push_str(&mut s, error);
    s
}

/// Law (longest prefix wins): in a well-ordered table, the first matching
/// route has at least as many bytes as any other route that matches.
pub proof fn law_longest_prefix(t: &RouteTable, path: Seq<char>, i: int)
    requires
        t.well_ordered(),
        t.first_match(path, i),
    ensures
        forall|j: int| 0 <= j < t.routes@.len() && segment_match(#[trigger] t.prefix(j), path) ==> byte_len(t.prefix(j)) <= byte_len(t.prefix(i)),
{
    assert forall|j: int| 0 <= j < t.routes@.len() && segment_match(#[trigger] t.prefix(j), path) implies byte_len(t.prefix(j)) <= byte_len(t.prefix(i)) by {
        if j < i {
            assert(!segment_match(t.prefix(j), path));
        } else if j > i {
            assert(byte_len(t.prefix(i)) >= byte_len(t.prefix(j)));
        }
    }
}

} // verus!
