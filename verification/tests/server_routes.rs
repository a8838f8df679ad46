use haystack::config::RootConfig;
use haystack::paths::PathStyle;

const U: PathStyle = PathStyle::Unix;
use haystack::server::{
    build_routes, check_served_path, content_type_for_essence, content_type_for_path,
    default_prefix_for, normalize_url_base, prefix_of_url_path, resolve_decoded, resolve_request,
    route_prefix, HttpState, HttpStatus,
    PortSearch, Route,
};

fn root(path: &str, url: Option<&str>) -> RootConfig {
    RootConfig { name: "r".to_string(), path: path.to_string(), url_base: url.map(|u| u.to_string()) }
}

fn route(prefix: &str, fs_root: &str) -> Route {
    Route { prefix: prefix.to_string(), fs_root: fs_root.to_string() }
}

#[test]
fn status_transitions() {
    let mut st = HttpState::new();
    assert!(!st.status.running);
    assert_eq!(st.status.port, None);
    assert_eq!(st.status.error, None);
    st.mark_bound(8080);
    assert!(st.status.running);
    assert_eq!(st.status.port, Some(8080));
    st.mark_failed(Some("bind 80: denied".to_string()));
    assert!(!st.status.running);
    assert_eq!(st.status.port, Some(8080));
    assert_eq!(st.status.error.as_deref(), Some("bind 80: denied"));
    let copy = st.status.copy();
    assert_eq!(copy.error.as_deref(), Some("bind 80: denied"));
    let d = HttpStatus::default();
    assert!(!d.running && d.port.is_none() && d.error.is_none());
}

#[test]
fn ports_are_tried_in_order() {
    let mut s = PortSearch::new();
    assert_eq!(s.next_port(), Some(80));
    s.record_failure(80, "Permission denied");
    assert_eq!(s.next_port(), Some(8080));
    s.record_failure(8080, "Address in use");
    assert_eq!(s.next_port(), None);
    assert_eq!(s.into_last_error(), Some("bind 8080: Address in use".to_string()));
    assert_eq!(PortSearch::new().into_last_error(), None);
}

#[test]
fn url_bases_get_a_scheme() {
    assert_eq!(normalize_url_base("192.168.1.10/projects"), "http://192.168.1.10/projects");
    assert_eq!(normalize_url_base("https://h/x"), "https://h/x");
    assert_eq!(normalize_url_base("http://h"), "http://h");
}

#[test]
fn route_prefixes() {
    assert_eq!(route_prefix(U, "http://192.168.1.10/projects", "/p"), "/projects");
    assert_eq!(route_prefix(U, "192.168.1.10/projects/", "/p"), "/projects");
    assert_eq!(route_prefix(U, "http://host/", "/p"), "");
    assert_eq!(route_prefix(U, "https://host/a/b//?q=1", "/p"), "/a/b");
    assert_eq!(route_prefix(U, "http://[bad", "/data/My Files"), "/My Files");
    assert_eq!(default_prefix_for(U, "/Users/me/projects"), "/projects");
    assert_eq!(default_prefix_for(U, "/"), "");
    assert_eq!(default_prefix_for(U, "/srv/ spaced "), "/spaced");
}

#[test]
fn routes_only_for_shared_roots_longest_first() {
    let roots = vec![
        root("/Users/me", None),
        root("/srv/site", Some("http://h/")),
        root("/srv/docs", Some("http://h/docs")),
        root("/srv/deep", Some("http://h/docs/deep")),
    ];
    let routes = build_routes(U, &roots);
    let got: Vec<(&str, &str)> = routes.iter().map(|r| (r.prefix.as_str(), r.fs_root.as_str())).collect();
    assert_eq!(got, vec![("/docs/deep", "/srv/deep"), ("/docs", "/srv/docs"), ("", "/srv/site")]);
}

#[test]
fn routes_are_ordered_by_byte_length() {
    let roots = vec![root("/srv/ascii", Some("http://h/abcde")), root("/srv/accents", Some("http://h/ééé"))];
    let routes = build_routes(U, &roots);
    let got: Vec<&str> = routes.iter().map(|r| r.prefix.as_str()).collect();
    assert_eq!(got, vec!["/ééé", "/abcde"]);
}

#[test]
fn non_ascii_prefixes_are_served() {
    let roots = vec![root("/srv/p", Some("http://192.168.1.10/项目"))];
    let routes = build_routes(U, &roots);
    assert_eq!(routes[0].prefix, "/项目");
    let t = resolve_request(U, &routes, "/%E9%A1%B9%E7%9B%AE/a.txt").unwrap();
    assert_eq!((t.route, t.target.as_str()), (0, "/srv/p/a.txt"));
}

#[test]
fn every_prefix_is_well_formed() {
    let roots = vec![
        root("/srv/a", Some("http://h/x/")),
        root("/srv/b", Some("http://h//")),
        root("/srv/ c ", Some("http://[bad")),
        root("/", Some("http://[bad")),
        root("/srv/d", Some("h/%2F")),
    ];
    for r in build_routes(U, &roots) {
        let p = r.prefix.as_str();
        assert!(p.is_empty() || (p.starts_with('/') && !p.ends_with('/')), "{p}");
    }
}

#[test]
fn requests_pick_route_and_file() {
    let routes = vec![route("/docs/deep", "/srv/deep"), route("/docs", "/srv/docs"), route("", "/srv/site")];
    let t = resolve_request(U, &routes, "/docs/a%20b.txt?x=1").unwrap();
    assert_eq!(t.route, 1);
    assert_eq!(t.target, "/srv/docs/a b.txt");
    let t = resolve_request(U, &routes, "/docs").unwrap();
    assert_eq!((t.route, t.target.as_str()), (1, "/srv/docs"));
    let t = resolve_request(U, &routes, "/docsx/y").unwrap();
    assert_eq!((t.route, t.target.as_str()), (2, "/srv/site/docsx/y"));
    let t = resolve_request(U, &routes, "/docs/deep/z").unwrap();
    assert_eq!((t.route, t.target.as_str()), (0, "/srv/deep/z"));
    let t = resolve_request(U, &routes, "/").unwrap();
    assert_eq!((t.route, t.target.as_str()), (2, "/srv/site"));
    let only = vec![route("/docs", "/srv/docs")];
    assert!(resolve_request(U, &only, "/other").is_none());
    let t = resolve_request(U, &only, "/docs//%E4%B8%AD.txt").unwrap();
    assert_eq!(t.target, "/srv/docs/中.txt");
}

#[test]
fn served_path_checks() {
    let r = check_served_path(U, &None, "/srv", false).unwrap_err();
    assert_eq!((r.status, r.message), (404, "not found"));
    let r = check_served_path(U, &Some("/etc/passwd".to_string()), "/srv", false).unwrap_err();
    assert_eq!((r.status, r.message), (403, "forbidden"));
    let r = check_served_path(U, &Some("/srv/d".to_string()), "/srv", true).unwrap_err();
    assert_eq!((r.status, r.message), (403, "directory listing disabled"));
    assert!(check_served_path(U, &Some("/srv/d/f".to_string()), "/srv", false).is_ok());
}

#[test]
fn content_types() {
    assert_eq!(content_type_for_essence("text/plain"), "text/plain; charset=utf-8");
    assert_eq!(content_type_for_essence("application/json"), "application/json; charset=utf-8");
    assert_eq!(content_type_for_essence("application/xml"), "application/xml; charset=utf-8");
    assert_eq!(content_type_for_essence("application/javascript"), "application/javascript; charset=utf-8");
    assert_eq!(content_type_for_essence("image/png"), "image/png");
    assert_eq!(content_type_for_path("/a/index.html"), "text/html; charset=utf-8");
    assert_eq!(content_type_for_path("/a/pic.png"), "image/png");
    assert_eq!(content_type_for_path("/a/noext"), "application/octet-stream");
}

#[test]
fn decoded_paths_and_url_paths() {
    assert_eq!(prefix_of_url_path("/项目//"), "/项目");
    assert_eq!(prefix_of_url_path("/"), "");
    let routes = vec![route("/项目", "/srv/p"), route("", "/srv/site")];
    let t = resolve_decoded(U, &routes, "/项目/a b.txt").unwrap();
    assert_eq!((t.route, t.target.as_str()), (0, "/srv/p/a b.txt"));
    let t = resolve_decoded(U, &routes, "/a%20b").unwrap();
    assert_eq!((t.route, t.target.as_str()), (1, "/srv/site/a%20b"));
    let only = vec![route("/项目", "/srv/p")];
    assert!(resolve_decoded(U, &only, "/other").is_none());
}
