use haystack::config::{default_config, ensure_within_roots, AppConfig, ConfigStore, RootConfig};
use haystack::paths::PathStyle;

fn root(name: &str, path: &str, url: Option<&str>) -> RootConfig {
    RootConfig { name: name.to_string(), path: path.to_string(), url_base: url.map(|u| u.to_string()) }
}

fn store() -> ConfigStore {
    let cfg = AppConfig {
        roots: vec![
            root("Home", "/Users/me", None),
            root("Projects", "/Users/me/projects", Some("http://192.168.1.10/projects")),
        ],
    };
    ConfigStore::new(cfg, "/tmp/config.json".to_string(), PathStyle::Unix)
}

#[test]
fn resolve_picks_first_containing_root() {
    let s = store();
    let r = s.resolve_within_roots("/Users/me/projects/a.txt").unwrap();
    assert_eq!(r.name, "Home");
    assert!(s.resolve_within_roots("/Users/meow/a.txt").is_none());
    assert!(s.resolve_within_roots("/etc/passwd").is_none());
    let r = s.resolve_within_roots("/Users/me").unwrap();
    assert_eq!(r.path, "/Users/me");
}

#[test]
fn parent_references_cannot_leave_a_root() {
    let cfg = AppConfig { roots: vec![root("Home", "/Users/me", None)] };
    let s = ConfigStore::new(cfg, "c".to_string(), PathStyle::Unix);
    assert!(s.resolve_within_roots("/Users/me/../other/x").is_none());
    assert!(s.resolve_within_roots("/Users/me/a/../../../etc/passwd").is_none());
    assert!(s.resolve_within_roots("/Users/me/a/../b").is_some());
}

#[test]
fn windows_roots_contain_their_files() {
    let cfg = AppConfig { roots: vec![root("User", r"C:\Users\me", None)] };
    let s = ConfigStore::new(cfg, "c".to_string(), PathStyle::Windows);
    assert_eq!(s.resolve_within_roots(r"C:\Users\me\x").unwrap().name, "User");
    assert!(s.resolve_within_roots(r"C:\Users\me\..\other").is_none());
    assert!(s.resolve_within_roots(r"D:\Users\me\x").is_none());
    assert_eq!(ensure_within_roots(&s, r"C:\Users\me\docs"), Ok(()));
}

#[test]
fn ensure_within_roots_names_the_path() {
    let s = store();
    assert_eq!(ensure_within_roots(&s, "/Users/me/x"), Ok(()));
    assert_eq!(
        ensure_within_roots(&s, "/var/tmp"),
        Err("path not within any configured root: /var/tmp".to_string())
    );
}

#[test]
fn snapshot_returns_what_replace_stored() {
    let mut s = store();
    assert_eq!(s.snapshot().roots.len(), 2);
    let new_cfg = AppConfig { roots: vec![root("Data", "/data", Some("files.local/data"))] };
    assert_eq!(s.replace(new_cfg, Ok(())), Ok(()));
    let snap = s.snapshot();
    assert_eq!(snap.roots.len(), 1);
    assert_eq!(snap.roots[0].name, "Data");
    assert_eq!(snap.roots[0].path, "/data");
    assert_eq!(snap.roots[0].url_base.as_deref(), Some("files.local/data"));
    assert_eq!(s.file_path(), "/tmp/config.json");
    assert!(s.resolve_within_roots("/Users/me/x").is_none());
    assert!(s.resolve_within_roots("/data/x").is_some());
}

#[test]
fn failed_save_keeps_the_configuration() {
    let mut s = store();
    let new_cfg = AppConfig { roots: vec![root("Data", "/data", None)] };
    assert_eq!(s.replace(new_cfg, Err("disk full".to_string())), Err("disk full".to_string()));
    let snap = s.snapshot();
    assert_eq!(snap.roots.len(), 2);
    assert_eq!(snap.roots[0].path, "/Users/me");
    assert_eq!(snap.roots[1].name, "Projects");
}

#[test]
fn default_config_uses_home() {
    let c = default_config(Some("/home/alice".to_string()), true, false);
    assert_eq!(c.roots.len(), 1);
    assert_eq!(c.roots[0].name, "alice");
    assert_eq!(c.roots[0].path, "/home/alice");
    assert!(c.roots[0].url_base.is_none());
    let w = default_config(Some("C:/Users/bob".to_string()), true, true);
    assert_eq!(w.roots[0].name, "User");
    let none = default_config(None, true, false);
    assert_eq!(none.roots[0].path, "/");
    assert_eq!(none.roots[0].name, "home");
    let lossy = default_config(Some("/home/\u{fffd}x".to_string()), false, false);
    assert_eq!(lossy.roots[0].name, "home");
    assert_eq!(lossy.roots[0].path, "/home/\u{fffd}x");
}
