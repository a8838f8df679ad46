use haystack::text::trim;
use haystack::paths::PathStyle;
use haystack::config::{AppConfig, ConfigStore, RootConfig};
use haystack::search::{
    dir_entry, fmt_mtime, is_visible_entry, list_dir_target, normalize_query, search_request,
    select_search_hits, EntryMeta, HitCollector, SearchCandidate, SearchPlan, MAX_HITS,
};

fn store() -> ConfigStore {
    let cfg = AppConfig {
        roots: vec![RootConfig { name: "Home".to_string(), path: "/home/u".to_string(), url_base: None }],
    };
    ConfigStore::new(cfg, "c.json".to_string(), PathStyle::Unix)
}

fn file(size: u64) -> Option<EntryMeta> {
    Some(EntryMeta { is_dir: false, size, modified: Some(Some(1_700_000_000)) })
}

fn cand(name: &str, path: &str, meta: Option<EntryMeta>) -> SearchCandidate {
    SearchCandidate { name: name.to_string(), path: path.to_string(), meta }
}

#[test]
fn mtime_is_decimal_seconds() {
    assert_eq!(fmt_mtime(Some(1725029869)), "1725029869");
    assert_eq!(fmt_mtime(Some(0)), "0");
    assert_eq!(fmt_mtime(Some(u64::MAX)), "18446744073709551615");
    assert_eq!(fmt_mtime(None), "0");
}

#[test]
fn dir_entries_show_kind_and_time() {
    let d = dir_entry("docs".to_string(), &EntryMeta { is_dir: true, size: 4096, modified: None });
    assert_eq!(d.name, "docs");
    assert_eq!(d.kind, "directory");
    assert_eq!(d.size, 4096);
    assert_eq!(d.mtime, "");
    let f = dir_entry("a.txt".to_string(), &EntryMeta { is_dir: false, size: 3, modified: Some(None) });
    assert_eq!(f.kind, "file");
    assert_eq!(f.mtime, "0");
    let g = dir_entry("b".to_string(), &EntryMeta { is_dir: false, size: 3, modified: Some(Some(42)) });
    assert_eq!(g.mtime, "42");
}

#[test]
fn list_dir_checks_path() {
    let s = store();
    assert_eq!(list_dir_target(&s, "/home/u/docs"), Ok(()));
    assert_eq!(list_dir_target(&s, "home/u"), Err("path must be absolute".to_string()));
    assert_eq!(
        list_dir_target(&s, "/etc"),
        Err("path not within any configured root: /etc".to_string())
    );
    assert_eq!(
        list_dir_target(&s, "/home/u/../other"),
        Err("path not within any configured root: /home/u/../other".to_string())
    );
}

#[test]
fn query_is_trimmed_and_lowercased() {
    assert_eq!(normalize_query("  .PNG \n"), ".png");
    assert_eq!(normalize_query("Report"), "report");
    assert_eq!(normalize_query("ÄBC"), "äbc");
}

#[test]
fn search_request_errors() {
    let s = store();
    assert_eq!(search_request(&s, "/home/u", "   ").err(), Some("missing q".to_string()));
    assert_eq!(search_request(&s, "home/u", "x").err(), Some("path must be absolute".to_string()));
    assert_eq!(
        search_request(&s, "/tmp", "x").err(),
        Some("path not within any configured root: /tmp".to_string())
    );
    let p = search_request(&s, "/home/u", " .JPG ").unwrap();
    assert_eq!(p.query, ".jpg");
    assert!(p.is_ext);
    let p = search_request(&s, "/home/u", "Notes").unwrap();
    assert_eq!(p.query, "notes");
    assert!(!p.is_ext);
}

#[test]
fn hidden_entries_are_skipped_below_the_root() {
    assert!(is_visible_entry(0, ".config"));
    assert!(!is_visible_entry(1, ".git"));
    assert!(is_visible_entry(3, "src"));
}

#[test]
fn hits_match_and_sort_by_path() {
    let plan = SearchPlan { query: "rep".to_string(), is_ext: false };
    let cands = vec![
        cand("Report.txt", "/home/u/z/Report.txt", file(10)),
        cand("notes.md", "/home/u/notes.md", file(1)),
        cand("prep", "/home/u/a/prep", Some(EntryMeta { is_dir: true, size: 0, modified: None })),
        cand("reply", "/home/u/m/reply", None),
    ];
    let hits = select_search_hits(&plan, cands);
    assert_eq!(hits.len(), 2);
    assert_eq!(hits[0].path, "/home/u/a/prep");
    assert_eq!(hits[0].kind, "directory");
    assert_eq!(hits[0].mtime, "");
    assert_eq!(hits[1].name, "Report.txt");
    assert_eq!(hits[1].mtime, "1700000000");
    assert_eq!(hits[1].size, 10);
}

#[test]
fn extension_search_matches_suffix_only() {
    let plan = SearchPlan { query: ".png".to_string(), is_ext: true };
    let cands = vec![
        cand("a.PNG", "/h/a.PNG", file(1)),
        cand("b.png.bak", "/h/b.png.bak", file(1)),
        cand("c.png", "/h/c.png", file(1)),
    ];
    let hits = select_search_hits(&plan, cands);
    let paths: Vec<&str> = hits.iter().map(|h| h.path.as_str()).collect();
    assert_eq!(paths, vec!["/h/a.PNG", "/h/c.png"]);
}

#[test]
fn search_stops_at_the_limit() {
    let plan = SearchPlan { query: "f".to_string(), is_ext: false };
    let mut cands = Vec::new();
    for i in 0..(MAX_HITS + 50) {
        cands.push(cand(&format!("f{}", i), &format!("/h/{:04}", 9999 - i), file(i as u64)));
    }
    let hits = select_search_hits(&plan, cands);
    assert_eq!(hits.len(), MAX_HITS);
    // The first MAX_HITS candidates in walk order are kept, then sorted.
    assert_eq!(hits[0].path, format!("/h/{:04}", 9999 - (MAX_HITS - 1)));
    assert_eq!(hits[MAX_HITS - 1].path, "/h/9999");
    for w in hits.windows(2) {
        assert!(w[0].path <= w[1].path);
    }
}

#[test]
fn equal_paths_keep_walk_order() {
    let plan = SearchPlan { query: "x".to_string(), is_ext: false };
    let cands = vec![
        cand("x1", "/same", file(1)),
        cand("x0", "/a", file(0)),
        cand("x2", "/same", file(2)),
    ];
    let hits = select_search_hits(&plan, cands);
    let names: Vec<&str> = hits.iter().map(|h| h.name.as_str()).collect();
    assert_eq!(names, vec!["x0", "x1", "x2"]);
}

#[test]
fn collector_drives_a_walk() {
    let plan = SearchPlan { query: "a".to_string(), is_ext: false };
    let mut col = HitCollector::new(&plan);
    assert!(!col.is_full());
    assert!(col.accepts("BANANA"));
    assert!(!col.accepts("xyz"));
    col.add("banana".to_string(), "/z/banana".to_string(), &EntryMeta { is_dir: false, size: 5, modified: Some(Some(7)) });
    col.add("apple".to_string(), "/a/apple".to_string(), &EntryMeta { is_dir: false, size: 5, modified: None });
    let hits = col.finish();
    assert_eq!(hits[0].name, "apple");
    assert_eq!(hits[1].mtime, "7");
}

#[test]
fn lowered_names_and_trimming() {
    let c = HitCollector::new(&SearchPlan { query: "port".to_string(), is_ext: false });
    assert!(c.accepts_lowered("report.txt"));
    assert!(!c.accepts_lowered("REPORT.txt"));
    assert!(c.accepts("REPORT.txt"));
    let e = HitCollector::new(&SearchPlan { query: ".png".to_string(), is_ext: true });
    assert!(e.accepts_lowered("a.png"));
    assert!(!e.accepts_lowered("a.png.txt"));
    assert_eq!(trim("\u{3000} a b \u{2028}\t"), "a b");
    assert_eq!(trim("   "), "");
    assert_eq!(trim("x"), "x");
}
