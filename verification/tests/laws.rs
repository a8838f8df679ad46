use haystack::config::{AppConfig, ConfigStore, RootConfig};
use haystack::files::{create_file_target, transfer_target, CreateArgs};
use haystack::paths::{path_starts_with, PathStyle};
use haystack::protocol::asset_decoded_path;
use haystack::search::fmt_mtime;
use haystack::server::{build_routes, resolve_request};

fn store() -> ConfigStore {
    let cfg = AppConfig {
        roots: vec![RootConfig { name: "R".to_string(), path: "/r".to_string(), url_base: None }],
    };
    ConfigStore::new(cfg, "c".to_string(), PathStyle::Unix)
}

#[test]
fn mtime_reads_back_as_the_same_number() {
    for n in [0u64, 9, 10, 99, 100, 1234567890, u64::MAX] {
        assert_eq!(fmt_mtime(Some(n)).parse::<u64>().unwrap(), n);
    }
}

#[test]
fn created_files_land_in_their_directory() {
    let s = store();
    for name in ["a.txt", "sub/b.md", "./d", "e/./f"] {
        let args = CreateArgs { dir: "/r/x".to_string(), name: name.to_string(), content: String::new(), base64: false };
        let t = create_file_target(&s, &args).unwrap();
        assert!(path_starts_with(PathStyle::Unix, &t, "/r/x"), "{t}");
    }
    for name in ["../c", "../../r/c", "../../../etc/passwd", "/etc/passwd"] {
        let args = CreateArgs { dir: "/r/x".to_string(), name: name.to_string(), content: String::new(), base64: false };
        match create_file_target(&s, &args) {
            Ok(t) => {
                assert!(path_starts_with(PathStyle::Unix, &t, "/r"), "{t}");
                assert!(!path_starts_with(PathStyle::Unix, &t, "/r/x"), "{t}");
            }
            Err(e) => assert!(e.starts_with("path not within any configured root: "), "{e}"),
        }
    }
}

#[test]
fn transferred_entries_land_in_the_destination() {
    let s = store();
    for src in ["/r/a/file.txt", "/r/a/dir/", "/r/a/x/."] {
        let d = transfer_target(&s, src, "/r/dest").unwrap();
        assert!(path_starts_with(PathStyle::Unix, &d, "/r/dest"), "{d}");
    }
}

#[test]
fn served_targets_stay_under_their_route() {
    let roots = vec![
        RootConfig { name: "a".to_string(), path: "/srv/a".to_string(), url_base: Some("h/a".to_string()) },
        RootConfig { name: "b".to_string(), path: "/srv/b".to_string(), url_base: Some("http://h/".to_string()) },
        RootConfig { name: "c".to_string(), path: "/home/private".to_string(), url_base: None },
    ];
    let routes = build_routes(PathStyle::Unix, &roots);
    assert_eq!(routes.len(), 2);
    assert!(routes.iter().all(|r| r.fs_root != "/home/private"));
    for url in ["/a/x", "/a//etc/passwd", "/%2Fetc%2Fpasswd", "/a", "/b/./c"] {
        let t = resolve_request(PathStyle::Unix, &routes, url).unwrap();
        assert!(path_starts_with(PathStyle::Unix, &t.target, &routes[t.route].fs_root), "{url} -> {}", t.target);
    }
    let t = resolve_request(PathStyle::Unix, &routes, "/b/../../etc").unwrap();
    assert_eq!(t.target, "/srv/b/b/../../etc");
    assert!(!path_starts_with(PathStyle::Unix, &t.target, &routes[t.route].fs_root));
}

#[test]
fn plain_paths_decode_to_themselves() {
    assert_eq!(asset_decoded_path("/Users/me/photo 1.jpg"), "Users/me/photo 1.jpg");
    assert_eq!(asset_decoded_path("//%2Fa"), "/a");
    assert_eq!(asset_decoded_path("/%ZZ"), "%ZZ");
}

#[test]
fn encoded_asset_urls_name_the_original_path() {
    assert_eq!(
        asset_decoded_path("/%2FUsers%2Fme%2F%E7%85%A7%E7%89%87%201.jpg"),
        "/Users/me/照片 1.jpg"
    );
    assert_eq!(
        asset_decoded_path("/%2Ftmp%2Fa-b_c.d!~*'()%25%23%3F.txt"),
        "/tmp/a-b_c.d!~*'()%#?.txt"
    );
    assert_eq!(asset_decoded_path("/"), "");
}
