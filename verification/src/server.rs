//! The built-in HTTP file server: its status, the ports it tries, the
//! routes it serves (one per root shared under a URL), how a request URL
//! picks a route and a file, and which responses it gives.

use crate::config::{RootConfig, RootView};
use crate::external::{
    lemma_encode_no_percent, lemma_percent_decoded_plain, percent_decoded, guessed_mime_essence, mime_essence_for, parsed_url_path, percent_decode_lossy,
    percent_decoded_lossy, string_from_chars, url_path,
};
use crate::order::{insert_sorted, lemma_insert_sorted_at, lemma_stable_sort, stable_sort};
use crate::paths::{
    file_name, file_name_in, is_absolute, is_win_sep, join_chars, joined_in, lemma_join_within,
    lemma_join_within_windows, lemma_within_self, no_parent_refs, path_starts_with, slashes, win_disk,
    win_prefix_len, within_in, PathStyle,
};
use crate::text::{
    before_first, chars_equal, chars_of, concat_chars, decimal, has_prefix, lemma_trim_leading,
    lemma_trim_trailing, push_decimal, starts_with_chars, take_before, trim_end_char,
    lemma_trimmed_keeps_absent, trim, trim_leading, trim_start_char, trim_trailing, trimmed,
};
use vstd::prelude::*;
use vstd::relations::{sorted_by, strongly_connected, transitive};
use vstd::string::StringExecFns;
use vstd::utf8::{decode_utf8, encode_utf8, encode_utf8_decode_utf8, encode_utf8_valid_utf8, valid_utf8};

verus! {

// ---------------------------------------------------------------------
// Status
// ---------------------------------------------------------------------

/// Whether the server runs, on which port, and the last error.
pub struct HttpStatus {
    pub running: bool,
    pub port: Option<u16>,
    pub error: Option<String>,
}

/// What an `HttpStatus` holds, as text.
pub struct HttpStatusView {
    pub running: bool,
    pub port: Option<u16>,
    pub error: Option<Seq<char>>,
}

impl View for HttpStatus {
    type V = HttpStatusView;

    open spec fn view(&self) -> HttpStatusView {
        HttpStatusView {
            running: self.running,
            port: self.port,
            error: crate::config::opt_text(self.error),
        }
    }
}

impl Default for HttpStatus {
    /// Not running, no port, no error.
    fn default() -> (res: HttpStatus)
        ensures
            res@ == (HttpStatusView { running: false, port: None, error: None }),
    {
        HttpStatus { running: false, port: None, error: None }
    }
}

impl HttpStatus {
    /// A copy of this status.
    pub fn copy(&self) -> (res: HttpStatus)
        ensures
            res@ == self@,
    {
        let error = match &self.error {
            Some(e) => Some(e.clone()),
            None => None,
        };
        HttpStatus { running: self.running, port: self.port, error }
    }
}

/// The server's shared state.
pub struct HttpState {
    pub status: HttpStatus,
}

impl HttpState {
    /// The state before the server starts: not running, no port, no error.
    pub fn new() -> (res: HttpState)
        ensures
            res.status@ == (HttpStatusView { running: false, port: None, error: None }),
    {
        HttpState { status: HttpStatus::default() }
    }

    /// Records that the server is listening on `port`.
    pub fn mark_bound(&mut self, port: u16)
        ensures
            final(self).status@ == (HttpStatusView { running: true, port: Some(port), error: None }),
    {
        self.status.running = true;
        self.status.port = Some(port);
        self.status.error = None;
    }

    /// Records that no port could be bound, with the last error; the port
    /// recorded before is left as it was.
    pub fn mark_failed(&mut self, error: Option<String>)
        ensures
            final(self).status@ == (HttpStatusView {
                running: false,
                port: old(self).status@.port,
                error: crate::config::opt_text(error),
            }),
    {
        self.status.running = false;
        self.status.error = error;
    }
}

// ---------------------------------------------------------------------
// Ports
// ---------------------------------------------------------------------

/// The ports tried, in order: 80 first, then 8080.
pub open spec fn candidate_ports() -> Seq<u16> {
    seq![80u16, 8080u16]
}

/// The error recorded when binding `port` fails with `error`.
pub open spec fn bind_error_text(port: u16, error: Seq<char>) -> Seq<char> {
    "bind "@ + decimal(port as nat) + ": "@ + error
}

/// The search for a port to listen on: the ports are tried in order, and
/// the error of the last failure is kept.
pub struct PortSearch {
    next: usize,
    last_error: Option<String>,
}

impl PortSearch {
    /// How many ports have been tried and failed.
    pub closed spec fn tried(&self) -> nat {
        self.next as nat
    }

    /// The error of the last failure, if any.
    pub closed spec fn last_error(&self) -> Option<Seq<char>> {
        crate::config::opt_text(self.last_error)
    }

    /// Nothing tried yet.
    pub fn new() -> (res: PortSearch)
        ensures
            res.tried() == 0,
            res.last_error() is None,
    {
        PortSearch { next: 0, last_error: None }
    }

    /// The next port to try, or `None` once every candidate has failed.
    pub fn next_port(&self) -> (res: Option<u16>)
        ensures
            self.tried() < candidate_ports().len() ==> res == Some(candidate_ports()[self.tried() as int]),
            self.tried() >= candidate_ports().len() ==> res is None,
    {
        if self.next == 0 {
            Some(80)
        } else if self.next == 1 {
            Some(8080)
        } else {
            None
        }
    }

    /// Records that binding `port` failed with `error`.
    pub fn record_failure(&mut self, port: u16, error: &str)
        requires
            old(self).tried() < candidate_ports().len(),
        ensures
            final(self).tried() == old(self).tried() + 1,
            final(self).last_error() == Some(bind_error_text(port, error@)),
    {
        let mut digits: Vec<char> = Vec::new();
        push_decimal(port as u64, &mut digits);
        let d = string_from_chars(digits.as_slice());
        let msg = String::from_str("bind ").concat(d.as_str()).concat(": ").concat(error);
        self.last_error = Some(msg);
        self.next = self.next + 1;
    }

    /// The error of the last failure, once the search is over.
    pub fn into_last_error(self) -> (res: Option<String>)
        ensures
            crate::config::opt_text(res) == self.last_error(),
    {
        self.last_error
    }
}

// ---------------------------------------------------------------------
// Routes
// ---------------------------------------------------------------------

/// A URL path prefix and the directory served under it.
pub struct Route {
    /// Normalised URL path prefix: it begins with `/` and does not end with
    /// one, or it is empty (the site root).
    pub prefix: String,
    pub fs_root: String,
}

/// What a route holds, as text.
pub struct RouteView {
    pub prefix: Seq<char>,
    pub fs_root: Seq<char>,
}

impl View for Route {
    type V = RouteView;

    open spec fn view(&self) -> RouteView {
        RouteView { prefix: self.prefix@, fs_root: self.fs_root@ }
    }
}

/// The text of a list of routes.
pub open spec fn routes_view(v: Seq<Route>) -> Seq<RouteView> {
    v.map_values(|r: Route| r@)
}

/// A URL base as it is parsed: as given when it begins with `http://` or
/// `https://`, and with `http://` put in front otherwise.
pub open spec fn normalized_url_base(b: Seq<char>) -> Seq<char> {
    if has_prefix(b, "http://"@) || has_prefix(b, "https://"@) {
        b
    } else {
        "http://"@ + b
    }
}

/// The URL prefix a root without a usable URL base would get: `/` and the
/// root directory's trimmed last component, or empty when that is empty.
pub open spec fn default_prefix_spec(style: PathStyle, path: Seq<char>) -> Seq<char> {
    let base = match file_name_in(style, path) {
        Some(n) => n,
        None => seq![],
    };
    let t = trimmed(base);
    if t.len() == 0 {
        seq![]
    } else {
        "/"@ + t
    }
}

/// The URL prefix of a root shared under `url_base`: the path of the
/// parsed URL, percent-decoded as request paths are, without trailing
/// `/`; or the default prefix of the root's directory when the URL does
/// not parse.
pub open spec fn route_prefix_spec(style: PathStyle, url_base: Seq<char>, path: Seq<char>) -> Seq<char> {
    match parsed_url_path(normalized_url_base(url_base)) {
        Some(p) => trim_trailing(percent_decoded_lossy(p), '/'),
        None => default_prefix_spec(style, path),
    }
}

/// The routes of the configured roots, in configuration order: one for
/// each root that has a URL base (roots without one stay local).
pub open spec fn routes_of(style: PathStyle, roots: Seq<RootView>) -> Seq<RouteView>
    decreases roots.len(),
{
    if roots.len() == 0 {
        seq![]
    } else {
        let prev = routes_of(style, roots.drop_last());
        let r = roots.last();
        match r.url_base {
            Some(b) => prev.push(
                RouteView { prefix: route_prefix_spec(style, b, r.path), fs_root: r.path },
            ),
            None => prev,
        }
    }
}

/// The length of a prefix in UTF-8 bytes.
pub open spec fn byte_len(p: Seq<char>) -> nat {
    encode_utf8(p).len()
}

/// Routes are ordered by the byte length of their prefix, longest first.
pub open spec fn longer_prefix_first() -> spec_fn(RouteView, RouteView) -> bool {
    |a: RouteView, b: RouteView| byte_len(a.prefix) >= byte_len(b.prefix)
}

/// The routes the server uses: those of the roots, longest prefix first,
/// keeping configuration order among equal lengths.
pub open spec fn build_routes_spec(style: PathStyle, roots: Seq<RootView>) -> Seq<RouteView> {
    stable_sort(routes_of(style, roots), longer_prefix_first())
}

/// Whether a root may get a route prefix: empty, or beginning with `/` and
/// not ending with one.
pub open spec fn well_formed_prefix(p: Seq<char>) -> bool {
    p.len() == 0 || (p[0] == '/' && p.last() != '/')
}

/// Every route's prefix is well formed.
pub open spec fn all_prefixes_well_formed(s: Seq<RouteView>) -> bool {
    forall|k: int| 0 <= k < s.len() ==> well_formed_prefix(#[trigger] s[k].prefix)
}

/// The URL base as it is parsed.
pub fn normalize_url_base(b: &str) -> (res: String)
    ensures
        res@ == normalized_url_base(b@),
        has_prefix(res@, "http://"@) || has_prefix(res@, "https://"@),
{
    let bc = chars_of(b);
    let http = chars_of("http://");
    let https = chars_of("https://");
    if starts_with_chars(bc.as_slice(), http.as_slice()) || starts_with_chars(
        bc.as_slice(),
        https.as_slice(),
    ) {
        String::from_str(b)
    } else {
        let r = String::from_str("http://").concat(b);
        assert(("http://"@ + b@).take("http://"@.len() as int) =~= "http://"@);
        r
    }
}

/// The default URL prefix for a root directory.
pub fn default_prefix_for(style: PathStyle, path: &str) -> (res: String)
    ensures
        res@ == default_prefix_spec(style, path@),
        well_formed_prefix(res@),
{
    let basename = match file_name(style, path) {
        Some(n) => n,
        None => String::new(),
    };
    let t = trim(basename.as_str());
    let tc = chars_of(t.as_str());
    proof {
        assert(!basename@.contains('/'));
        lemma_trimmed_keeps_absent(basename@, '/');
    }
    if tc.len() == 0 {
        String::new()
    } else {
        let r = String::from_str("/").concat(t.as_str());
        proof {
            reveal_strlit("/");
            assert(r@ =~= seq!['/'] + t@);
            assert(r@.last() == t@.last());
            assert(t@.last() != '/') by {
                if t@.last() == '/' {
                    assert(t@[t@.len() - 1] == '/');
                }
            }
        }
        r
    }
}

/// The URL prefix of a root shared under `url_base`.
pub fn route_prefix(style: PathStyle, url_base: &str, path: &str) -> (res: String)
    ensures
        res@ == route_prefix_spec(style, url_base@, path@),
        well_formed_prefix(res@),
{
    let normalized = normalize_url_base(url_base);
    match url_path(normalized.as_str()) {
        Some(p) => {
            let d = percent_decode_lossy(p.as_str());
            prefix_of_url_path(d.as_str())
        },
        None => default_prefix_for(style, path),
    }
}

/// The route prefix for a decoded URL path: the path without trailing `/`.
pub fn prefix_of_url_path(decoded: &str) -> (res: String)
    ensures
        res@ == trim_trailing(decoded@, '/'),
        decoded@.len() > 0 && decoded@[0] == '/' ==> well_formed_prefix(res@),
{
    let dc = chars_of(decoded);
    let t = trim_end_char(dc.as_slice(), '/');
    proof {
        if decoded@.len() > 0 && decoded@[0] == '/' {
            lemma_trimmed_prefix_shape(decoded@);
        }
    }
    string_from_chars(t.as_slice())
}

/// A path that begins with `/`, without its trailing `/`, is empty or
/// begins with `/` and does not end with one.
proof fn lemma_trimmed_prefix_shape(d: Seq<char>)
    requires
        d.len() > 0,
        d[0] == '/',
    ensures
        well_formed_prefix(trim_trailing(d, '/')),
{
    lemma_trim_trailing(d, '/');
    let t = trim_trailing(d, '/');
    if t.len() > 0 {
        assert(d.take(t.len() as int)[0] == d[0]);
    }
}

fn route_le(a: &Route, b_len: usize) -> (res: bool)
    ensures
        res == (byte_len(a.prefix@) >= b_len),
{
    a.prefix.as_str().as_bytes().len() >= b_len
}

fn insert_route(v: &mut Vec<Route>, x: Route)
    ensures
        routes_view(final(v)@) == insert_sorted(routes_view(old(v)@), x@, longer_prefix_first()),
        all_prefixes_well_formed(routes_view(old(v)@)) && well_formed_prefix(x@.prefix)
            ==> all_prefixes_well_formed(routes_view(final(v)@)),
{
    let xl = x.prefix.as_str().as_bytes().len();
    let ghost s = routes_view(v@);
    let mut j: usize = v.len();
    while j > 0 && !route_le(&v[j - 1], xl)
        invariant
            j <= v.len(),
            s == routes_view(v@),
            xl == byte_len(x.prefix@),
            forall|k: int| j <= k < s.len() ==> !longer_prefix_first()(#[trigger] s[k], x@),
        decreases j,
    {
        j = j - 1;
    }
    proof {
        lemma_insert_sorted_at(s, x@, longer_prefix_first(), j as int);
    }
    let ghost xv = x@;
    v.insert(j, x);
    let ghost t = s.take(j as int).push(xv) + s.skip(j as int);
    assert(routes_view(v@) =~= t);
    assert forall|k: int| 0 <= k < t.len() implies t[k] == xv || (exists|m: int|
        0 <= m < s.len() && t[k] == #[trigger] s[m]) by {
        if k < j {
            assert(t[k] == s[k]);
        } else if k > j {
            assert(t[k] == s[k - 1]);
        }
    }
}

/// The routes for the configured roots, longest prefix first; every
/// prefix is empty, or begins with `/` and does not end with one.
pub fn build_routes(style: PathStyle, roots: &Vec<RootConfig>) -> (res: Vec<Route>)
    ensures
        routes_view(res@) == build_routes_spec(style, crate::config::roots_view(roots@)),
        all_prefixes_well_formed(routes_view(res@)),
{
    let ghost rv = crate::config::roots_view(roots@);
    let mut unsorted: Vec<Route> = Vec::new();
    let mut i: usize = 0;
    assert(rv.take(0) =~= Seq::<RootView>::empty());
    while i < roots.len()
        invariant
            i <= roots.len(),
            rv == crate::config::roots_view(roots@),
            routes_view(unsorted@) == routes_of(style, rv.take(i as int)),
            all_prefixes_well_formed(routes_view(unsorted@)),
        decreases roots.len() - i,
    {
        assert(rv.take(i + 1).drop_last() =~= rv.take(i as int));
        assert(rv.take(i + 1).last() == roots[i as int]@);
        let r = &roots[i];
        match &r.url_base {
            Some(b) => {
                let prefix = route_prefix(style, b.as_str(), r.path.as_str());
                let route = Route { prefix, fs_root: r.path.clone() };
                let ghost before = unsorted@;
                unsorted.push(route);
                assert(routes_view(unsorted@) =~= routes_view(before).push(route@));
            },
            None => {},
        }
        i = i + 1;
    }
    assert(rv.take(roots.len() as int) =~= rv);
    let ghost all = routes_view(unsorted@);
    let mut out: Vec<Route> = Vec::new();
    let ghost raw = unsorted@;
    assert(routes_view(out@) =~= stable_sort(all.take(0), longer_prefix_first()));
    for x in it: unsorted.into_iter()
        invariant
            all == routes_view(raw),
            it.seq() == raw,
            routes_view(out@) == stable_sort(all.take(it.index() as int), longer_prefix_first()),
            all_prefixes_well_formed(all),
            all_prefixes_well_formed(routes_view(out@)),
    {
        let ghost k = it.index();
        assert(x@ == all[k as int]);
        assert(well_formed_prefix(all[k as int].prefix));
        assert(all.take(k + 1).drop_last() =~= all.take(k as int));
        insert_route(&mut out, x);
    }
    assert(all.take(all.len() as int) =~= all);
    out
}

/// `p` is the directory of a root that has a URL base.
pub open spec fn is_shared_root(roots: Seq<RootView>, p: Seq<char>) -> bool {
    exists|k: int| #![trigger roots[k]] 0 <= k < roots.len() && roots[k].url_base is Some && roots[k].path == p
}

/// Every route comes from a root with a URL base.
pub proof fn lemma_routes_from_shared_roots(style: PathStyle, roots: Seq<RootView>)
    ensures
        forall|i: int|
            0 <= i < routes_of(style, roots).len() ==> is_shared_root(roots, #[trigger] routes_of(style, roots)[i].fs_root),
        routes_of(style, roots).len() <= roots.len(),
    decreases roots.len(),
{
    if roots.len() > 0 {
        let t = roots.drop_last();
        lemma_routes_from_shared_roots(style, t);
        let prev = routes_of(style, t);
        assert forall|i: int| 0 <= i < routes_of(style, roots).len() implies is_shared_root(
            roots,
            #[trigger] routes_of(style, roots)[i].fs_root,
        ) by {
            if i < prev.len() {
                assert(routes_of(style, roots)[i] == prev[i]);
                assert(is_shared_root(t, prev[i].fs_root));
                let k = choose|k: int| #![trigger t[k]] 0 <= k < t.len() && t[k].url_base is Some && t[k].path == prev[i].fs_root;
                assert(roots[k] == t[k]);
            } else {
                let k = roots.len() - 1;
                assert(roots[k] == roots.last());
            }
        }
    }
}

/// The routes the server uses are ordered longest prefix first, are
/// exactly the routes of the shared roots, and each serves the directory
/// of a root that has a URL base.
pub proof fn lemma_build_routes(style: PathStyle, roots: Seq<RootView>)
    ensures
        sorted_by(build_routes_spec(style, roots), longer_prefix_first()),
        build_routes_spec(style, roots).to_multiset() =~= routes_of(style, roots).to_multiset(),
        forall|i: int|
            0 <= i < build_routes_spec(style, roots).len() ==> is_shared_root(
                roots,
                #[trigger] build_routes_spec(style, roots)[i].fs_root,
            ),
{
    broadcast use vstd::seq_lib::group_to_multiset_ensures;

    assert(strongly_connected(longer_prefix_first()));
    assert(transitive(longer_prefix_first()));
    lemma_stable_sort(routes_of(style, roots), longer_prefix_first());
    lemma_routes_from_shared_roots(style, roots);
    let r = build_routes_spec(style, roots);
    let u = routes_of(style, roots);
    assert forall|i: int| 0 <= i < r.len() implies is_shared_root(roots, #[trigger] r[i].fs_root) by {
        assert(r.contains(r[i]));
        assert(r.to_multiset().count(r[i]) > 0);
        assert(u.contains(r[i]));
        let j = choose|j: int| 0 <= j < u.len() && u[j] == r[i];
        assert(is_shared_root(roots, u[j].fs_root));
    }
}

// ---------------------------------------------------------------------
// Requests
// ---------------------------------------------------------------------

/// Whether a route serves a decoded request path: the site-root route
/// serves everything; another serves its prefix and what lies below it.
pub open spec fn route_matches(prefix: Seq<char>, path: Seq<char>) -> bool {
    prefix.len() == 0 || path == prefix || has_prefix(path, prefix + "/"@)
}

/// The index of the first route that serves `path`.
pub open spec fn first_route(routes: Seq<RouteView>, path: Seq<char>) -> Option<int>
    decreases routes.len(),
{
    if routes.len() == 0 {
        None
    } else if route_matches(routes[0].prefix, path) {
        Some(0)
    } else {
        match first_route(routes.skip(1), path) {
            Some(i) => Some(i + 1),
            None => None,
        }
    }
}

/// The decoded path of a request URL: the part before `?`,
/// percent-decoded.
pub open spec fn request_path(url: Seq<char>) -> Seq<char> {
    percent_decoded_lossy(before_first(url, '?'))
}

/// The part of a decoded request path that names a file under the route:
/// the rest of the path after the prefix, without leading `/`.
pub open spec fn route_rel(route: RouteView, path: Seq<char>) -> Seq<char> {
    let rest = if has_prefix(path, route.prefix) {
        path.skip(route.prefix.len() as int)
    } else {
        path
    };
    trim_leading(rest, '/')
}

/// The file a route serves for a decoded request path: `route_rel` joined
/// to the route's directory (the directory itself when nothing is left).
pub open spec fn route_target(style: PathStyle, route: RouteView, path: Seq<char>) -> Seq<char> {
    let rel = route_rel(route, path);
    if rel.len() == 0 {
        route.fs_root
    } else {
        joined_in(style, route.fs_root, rel)
    }
}

/// The index of the route a request URL takes and the file it asks for,
/// or `None` when no route serves it.
pub open spec fn resolve_spec(style: PathStyle, routes: Seq<RouteView>, url: Seq<char>) -> Option<
    (int, Seq<char>),
> {
    resolve_for_path(style, routes, request_path(url))
}

/// The index of the route a decoded request path takes and the file it
/// asks for, or `None` when no route serves it.
pub open spec fn resolve_for_path(style: PathStyle, routes: Seq<RouteView>, path: Seq<char>) -> Option<
    (int, Seq<char>),
> {
    match first_route(routes, path) {
        Some(i) => Some((i, route_target(style, routes[i], path))),
        None => None,
    }
}

/// `s` holds no `%`.
pub open spec fn no_percent(s: Seq<char>) -> bool {
    forall|i: int| 0 <= i < s.len() ==> #[trigger] s[i] != '%'
}

/// Text without `%` percent-decodes to itself: its UTF-8 bytes are left
/// as they are, and they are valid UTF-8.
pub proof fn lemma_plain_decodes_to_itself(s: Seq<char>)
    requires
        no_percent(s),
    ensures
        valid_utf8(percent_decoded(encode_utf8(s))),
        decode_utf8(percent_decoded(encode_utf8(s))) == s,
{
    lemma_encode_no_percent(s);
    lemma_percent_decoded_plain(encode_utf8(s));
    encode_utf8_valid_utf8(s);
    encode_utf8_decode_utf8(s);
}

/// The route a request takes and the file it asks for.
pub struct RequestTarget {
    pub route: usize,
    pub target: String,
}

/// `first_route` finds the first route that serves the path.
pub proof fn lemma_first_route(routes: Seq<RouteView>, path: Seq<char>)
    ensures
        match first_route(routes, path) {
            Some(i) => 0 <= i < routes.len() && route_matches(routes[i].prefix, path) && forall|j: int|
                0 <= j < i ==> !route_matches(#[trigger] routes[j].prefix, path),
            None => forall|j: int|
                0 <= j < routes.len() ==> !route_matches(#[trigger] routes[j].prefix, path),
        },
    decreases routes.len(),
{
    if routes.len() > 0 && !route_matches(routes[0].prefix, path) {
        lemma_first_route(routes.skip(1), path);
        assert forall|j: int| 0 < j < routes.len() implies routes[j] == routes.skip(1)[j - 1] by {}
    }
}

/// With routes ordered longest prefix first, the route a request takes has
/// the longest prefix (in bytes) among all routes that serve it.
pub proof fn lemma_longest_prefix_wins(routes: Seq<RouteView>, path: Seq<char>, j: int)
    requires
        sorted_by(routes, longer_prefix_first()),
        0 <= j < routes.len(),
        route_matches(routes[j].prefix, path),
    ensures
        first_route(routes, path) matches Some(i) && byte_len(routes[i].prefix) >= byte_len(
            routes[j].prefix,
        ),
{
    lemma_first_route(routes, path);
    let i = first_route(routes, path).unwrap();
    if i < j {
        assert(longer_prefix_first()(routes[i], routes[j]));
    }
}

/// With Unix paths, the file a route serves for a request whose rest holds
/// no `..` piece lies within the route's directory. (A rest that climbs
/// with `..` is caught once the file system has resolved the target: see
/// `check_served_path`.)
pub proof fn lemma_route_target_within(route: RouteView, path: Seq<char>)
    requires
        no_parent_refs(route_rel(route, path)),
    ensures
        within_in(PathStyle::Unix, route_target(PathStyle::Unix, route, path), route.fs_root),
{
    let rest = if has_prefix(path, route.prefix) {
        path.skip(route.prefix.len() as int)
    } else {
        path
    };
    let rel = trim_leading(rest, '/');
    lemma_trim_leading(rest, '/');
    if rel.len() == 0 {
        lemma_within_self(PathStyle::Unix, route.fs_root);
    } else {
        assert(!is_absolute(rel));
        lemma_join_within(route.fs_root, rel);
    }
}

/// With Windows paths, the file a route serves for a request whose rest has
/// no prefix and no `..` piece lies within the route's directory, when that
/// directory begins with a drive and a separator.
pub proof fn lemma_route_target_within_windows(route: RouteView, path: Seq<char>)
    requires
        win_disk(route.fs_root),
        route.fs_root.len() >= 3,
        is_win_sep(route.fs_root[2]),
        win_prefix_len(route_rel(route, path)) == 0,
        !(route_rel(route, path).len() > 0 && route_rel(route, path)[0] == '\\'),
        no_parent_refs(slashes(route_rel(route, path))),
    ensures
        within_in(PathStyle::Windows, route_target(PathStyle::Windows, route, path), route.fs_root),
{
    let rest = if has_prefix(path, route.prefix) {
        path.skip(route.prefix.len() as int)
    } else {
        path
    };
    let rel = trim_leading(rest, '/');
    lemma_trim_leading(rest, '/');
    if rel.len() == 0 {
        lemma_within_self(PathStyle::Windows, route.fs_root);
    } else {
        lemma_join_within_windows(route.fs_root, rel);
    }
}

fn route_serves(prefix: &[char], path: &[char]) -> (res: bool)
    ensures
        res == route_matches(prefix@, path@),
{
    if prefix.len() == 0 {
        return true;
    }
    if chars_equal(path, prefix) {
        return true;
    }
    let mut slash: Vec<char> = Vec::new();
    slash.push('/');
    let with_slash = concat_chars(prefix, slash.as_slice());
    assert(with_slash@ =~= prefix@ + "/"@) by {
        reveal_strlit("/");
    }
    starts_with_chars(path, with_slash.as_slice())
}

/// The route a request URL takes and the file it asks for, or `None` when
/// no route serves it (answered with 404).
pub fn resolve_request(style: PathStyle, routes: &Vec<Route>, url: &str) -> (res: Option<
    RequestTarget,
>)
    ensures
        match res {
            Some(t) => resolve_spec(style, routes_view(routes@), url@) == Some(
                (t.route as int, t.target@),
            ),
            None => resolve_spec(style, routes_view(routes@), url@) is None,
        },
        res matches Some(t) ==> t.route < routes@.len(),
        no_percent(before_first(url@, '?')) ==> match res {
            Some(t) => resolve_for_path(style, routes_view(routes@), before_first(url@, '?')) == Some(
                (t.route as int, t.target@),
            ),
            None => resolve_for_path(style, routes_view(routes@), before_first(url@, '?')) is None,
        },
{
    let uc = chars_of(url);
    let before = take_before(uc.as_slice(), '?');
    let before_s = string_from_chars(before.as_slice());
    let decoded_s = percent_decode_lossy(before_s.as_str());
    proof {
        if no_percent(before_first(url@, '?')) {
            lemma_plain_decodes_to_itself(before_s@);
        }
    }
    resolve_decoded(style, routes, decoded_s.as_str())
}

/// The route a decoded request path takes and the file it asks for, or
/// `None` when no route serves it.
pub fn resolve_decoded(style: PathStyle, routes: &Vec<Route>, decoded_path: &str) -> (res: Option<
    RequestTarget,
>)
    ensures
        match res {
            Some(t) => resolve_for_path(style, routes_view(routes@), decoded_path@) == Some(
                (t.route as int, t.target@),
            ),
            None => resolve_for_path(style, routes_view(routes@), decoded_path@) is None,
        },
        res matches Some(t) ==> t.route < routes@.len(),
{
    let decoded = chars_of(decoded_path);
    let ghost rv = routes_view(routes@);
    let ghost path = decoded_path@;
    assert(decoded@ == path);
    let mut i: usize = 0;
    assert(rv.skip(0) =~= rv);
    while i < routes.len()
        invariant
            i <= routes.len(),
            rv == routes_view(routes@),
            path == decoded_path@,
            decoded@ == path,
            first_route(rv, path) == match first_route(rv.skip(i as int), path) {
                Some(k) => Some(k + i),
                None => None,
            },
        decreases routes.len() - i,
    {
        assert(rv.skip(i as int)[0] == rv[i as int]);
        assert(rv[i as int] == routes@[i as int]@);
        let prefix = chars_of(routes[i].prefix.as_str());
        if route_serves(prefix.as_slice(), decoded.as_slice()) {
            assert(first_route(rv.skip(i as int), path) == Some(0int));
            let rest: Vec<char> = if starts_with_chars(decoded.as_slice(), prefix.as_slice()) {
                let mut r: Vec<char> = Vec::new();
                let mut k: usize = prefix.len();
                while k < decoded.len()
                    invariant
                        prefix.len() <= k <= decoded.len(),
                        r@ =~= decoded@.subrange(prefix.len() as int, k as int),
                    decreases decoded.len() - k,
                {
                    r.push(decoded[k]);
                    k = k + 1;
                }
                assert(r@ =~= decoded@.skip(prefix.len() as int));
                r
            } else {
                crate::text::copy_chars(decoded.as_slice())
            };
            let rel = trim_start_char(rest.as_slice(), '/');
            let root = chars_of(routes[i].fs_root.as_str());
            let target = if rel.len() == 0 {
                routes[i].fs_root.clone()
            } else {
                let j = join_chars(style, root.as_slice(), rel.as_slice());
                string_from_chars(j.as_slice())
            };
            assert(first_route(rv, path) == Some(i as int));
            assert(rv[i as int].prefix == prefix@);
            assert(rv[i as int].fs_root == root@);
            assert(rest@ == (if has_prefix(path, prefix@) {
                path.skip(prefix@.len() as int)
            } else {
                path
            }));
            assert(target@ == route_target(style, rv[i as int], path));
            return Some(RequestTarget { route: i, target });
        }
        assert(rv.skip(i as int).skip(1) =~= rv.skip(i + 1));
        i = i + 1;
    }
    None
}

/// A response the server gives instead of a file.
pub struct Reply {
    pub status: u16,
    pub message: &'static str,
}

/// Checks the file a request resolved to, once the file system has
/// resolved it: it must exist (`canonical` is its resolved path), lie
/// within the route's resolved directory, and not be a directory.
pub fn check_served_path(
    style: PathStyle,
    canonical: &Option<String>,
    root_canonical: &str,
    is_dir: bool,
) -> (res: Result<(), Reply>)
    ensures
        match canonical {
            None => res matches Err(r) && r.status == 404 && r.message@ == "not found"@,
            Some(c) => if !within_in(style, c@, root_canonical@) {
                res matches Err(r) && r.status == 403 && r.message@ == "forbidden"@
            } else if is_dir {
                res matches Err(r) && r.status == 403 && r.message@ == "directory listing disabled"@
            } else {
                res is Ok
            },
        },
{
    match canonical {
        None => Err(Reply { status: 404, message: "not found" }),
        Some(c) => {
            if !path_starts_with(style, c.as_str(), root_canonical) {
                Err(Reply { status: 403, message: "forbidden" })
            } else if is_dir {
                Err(Reply { status: 403, message: "directory listing disabled" })
            } else {
                Ok(())
            }
        },
    }
}

/// The `Content-Type` for a MIME essence: text types, JSON, JavaScript
/// and XML get `; charset=utf-8`; anything else is sent as it is.
pub open spec fn content_type_spec(essence: Seq<char>) -> Seq<char> {
    if has_prefix(essence, "text/"@) || essence == "application/json"@ || essence
        == "application/javascript"@ || essence == "application/xml"@ {
        essence + "; charset=utf-8"@
    } else {
        essence
    }
}

/// Every text type (`text/...`), and JSON, JavaScript and XML, is sent as
/// its essence followed by `; charset=utf-8`; any other type is sent as
/// its essence alone. Either way the header begins with the essence.
pub proof fn lemma_content_type_charset(essence: Seq<char>)
    ensures
        has_prefix(essence, "text/"@) ==> content_type_spec(essence) == essence + "; charset=utf-8"@,
        essence == "application/json"@ ==> content_type_spec(essence) == essence
            + "; charset=utf-8"@,
        essence == "application/javascript"@ ==> content_type_spec(essence) == essence
            + "; charset=utf-8"@,
        essence == "application/xml"@ ==> content_type_spec(essence) == essence
            + "; charset=utf-8"@,
        !has_prefix(essence, "text/"@) && essence != "application/json"@ && essence
            != "application/javascript"@ && essence != "application/xml"@ ==> content_type_spec(
            essence,
        ) == essence,
        has_prefix(content_type_spec(essence), essence),
{
    let r = content_type_spec(essence);
    assert(r.take(essence.len() as int) =~= essence);
}

/// The `Content-Type` for a MIME essence.
pub fn content_type_for_essence(essence: &str) -> (res: String)
    ensures
        res@ == content_type_spec(essence@),
{
    let ec = chars_of(essence);
    let text = chars_of("text/");
    let json = chars_of("application/json");
    let js = chars_of("application/javascript");
    let xml = chars_of("application/xml");
    if starts_with_chars(ec.as_slice(), text.as_slice()) || chars_equal(ec.as_slice(), json.as_slice())
        || chars_equal(ec.as_slice(), js.as_slice()) || chars_equal(ec.as_slice(), xml.as_slice()) {
        String::from_str(essence).concat("; charset=utf-8")
    } else {
        String::from_str(essence)
    }
}

/// The `Content-Type` for a file, from the MIME type its extension
/// suggests.
pub fn content_type_for_path(path: &str) -> (res: String)
    ensures
        res@ == content_type_spec(guessed_mime_essence(path@)),
{
    let essence = mime_essence_for(path);
    content_type_for_essence(essence.as_str())
}

} // verus!
