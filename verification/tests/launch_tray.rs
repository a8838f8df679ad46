use haystack::paths::PathStyle;
use haystack::launch::{build_terminal_script, reveal_launch, terminal_exhausted, terminal_launches, Platform};
use haystack::protocol::{asset_resolved_check, asset_target, asset_target_checked, SCHEME};
use haystack::config::{AppConfig, ConfigStore, RootConfig};
use haystack::tray::{page_script, shows_window, tray_click_action, tray_menu_action, tray_menu_items, TrayAction};

fn pairs(l: &haystack::launch::Launch) -> (String, Vec<String>) {
    (l.program.clone(), l.args.clone())
}

#[test]
fn terminal_commands_per_platform() {
    let mac = terminal_launches(Platform::MacOs, "/Users/me/it's");
    assert_eq!(mac.len(), 1);
    assert_eq!(mac[0].program, "osascript");
    assert_eq!(mac[0].args[0], "-e");
    assert!(mac[0].args[1].contains("do script \"cd '/Users/me/it'\\''s' && clear\" in window 1"));
    assert_eq!(mac[0].args[1], build_terminal_script("/Users/me/it's"));
    let win = terminal_launches(Platform::Windows, "C:\\x");
    assert_eq!(pairs(&win[0]), ("wt".to_string(), vec!["-d".to_string(), "C:\\x".to_string()]));
    assert_eq!(win[1].args, vec!["/C", "start", "cmd", "/K", "cd /d C:\\x"]);
    let lin = terminal_launches(Platform::Linux, "/home/u");
    let progs: Vec<&str> = lin.iter().map(|l| l.program.as_str()).collect();
    assert_eq!(progs, vec!["x-terminal-emulator", "gnome-terminal", "konsole", "xterm"]);
    assert_eq!(lin[2].args, vec!["--working-directory", "/home/u"]);
    assert!(terminal_launches(Platform::Other, "/").is_empty());
    assert_eq!(terminal_exhausted(Platform::Linux, None), Err("no terminal found".to_string()));
    assert_eq!(terminal_exhausted(Platform::Linux, Some("nope".to_string())), Err("nope".to_string()));
    assert_eq!(terminal_exhausted(Platform::Other, None), Ok(()));
}

#[test]
fn reveal_commands() {
    let m = reveal_launch(Platform::MacOs, "/a/b").unwrap();
    assert_eq!(pairs(&m), ("open".to_string(), vec!["-R".to_string(), "/a/b".to_string()]));
    let w = reveal_launch(Platform::Windows, "C:\\a").unwrap();
    assert_eq!(w.args, vec!["/select,C:\\a"]);
    let l = reveal_launch(Platform::Linux, "/a/b/").unwrap();
    assert_eq!(pairs(&l), ("xdg-open".to_string(), vec!["/a".to_string()]));
    let r = reveal_launch(Platform::Linux, "/").unwrap();
    assert_eq!(r.args, vec!["/"]);
    assert!(reveal_launch(Platform::Other, "/").is_none());
}

#[test]
fn asset_requests() {
    let cfg = AppConfig {
        roots: vec![RootConfig { name: "H".to_string(), path: "/Users/me".to_string(), url_base: None }],
    };
    let store = ConfigStore::new(cfg, "c".to_string(), PathStyle::Unix);
    assert_eq!(SCHEME, "haystack-asset");
    assert_eq!(asset_target(&store, "/%2FUsers%2Fme%2Fa%20b.png").ok(), Some("/Users/me/a b.png".to_string()));
    let e = asset_target(&store, "/relative%2Fx").unwrap_err();
    assert_eq!((e.status, e.message), (400, "absolute path required"));
    let e = asset_target(&store, "/%2Fetc%2Fpasswd").unwrap_err();
    assert_eq!((e.status, e.message), (403, "outside configured roots"));
    let cfg2 = AppConfig {
        roots: vec![RootConfig { name: "H".to_string(), path: "/Users/me".to_string(), url_base: None }],
    };
    let resolved = vec![Some("/private/Users/me".to_string())];
    let e = asset_resolved_check(PathStyle::Unix, &cfg2, &resolved, &None, false).unwrap_err();
    assert_eq!((e.status, e.message), (404, "not found"));
    let e = asset_resolved_check(PathStyle::Unix, &cfg2, &resolved, &Some("/etc/x".to_string()), false).unwrap_err();
    assert_eq!((e.status, e.message), (403, "symlink escape blocked"));
    let e = asset_resolved_check(PathStyle::Unix, &cfg2, &resolved, &Some("/private/Users/me/d".to_string()), true).unwrap_err();
    assert_eq!((e.status, e.message), (403, "directory listing disabled"));
    assert!(asset_resolved_check(PathStyle::Unix, &cfg2, &resolved, &Some("/private/Users/me/f".to_string()), false).is_ok());
    assert!(asset_resolved_check(PathStyle::Unix, &cfg2, &vec![None], &Some("/Users/me/f".to_string()), false).is_ok());
}

#[test]
fn tray_menu() {
    let items = tray_menu_items();
    assert_eq!(items, vec![("tray_show", "显示窗口"), ("tray_reload", "刷新"), ("tray_settings", "设置"), ("tray_quit", "退出")]);
    assert_eq!(tray_menu_action("tray_show"), TrayAction::ShowWindow);
    assert_eq!(tray_menu_action("tray_reload"), TrayAction::Reload);
    assert_eq!(tray_menu_action("tray_settings"), TrayAction::OpenSettings);
    assert_eq!(tray_menu_action("tray_quit"), TrayAction::Quit);
    assert_eq!(tray_menu_action("other"), TrayAction::Ignore);
    assert_eq!(tray_click_action(true, true), TrayAction::ShowWindow);
    assert_eq!(tray_click_action(true, false), TrayAction::Ignore);
    assert_eq!(tray_click_action(false, true), TrayAction::Ignore);
    assert!(shows_window(TrayAction::Reload));
    assert!(!shows_window(TrayAction::Quit));
    assert_eq!(page_script(TrayAction::Reload), Some("location.reload()"));
    assert_eq!(page_script(TrayAction::OpenSettings), Some("document.getElementById('btnSettings')?.click()"));
    assert_eq!(page_script(TrayAction::ShowWindow), None);
}

#[test]
fn decoded_asset_paths_are_checked() {
    let cfg = AppConfig {
        roots: vec![RootConfig { name: "H".to_string(), path: "/Users/me".to_string(), url_base: None }],
    };
    let store = ConfigStore::new(cfg, "c".to_string(), PathStyle::Unix);
    assert_eq!(asset_target_checked(&store, "/Users/me/a%20b".to_string()).ok(), Some("/Users/me/a%20b".to_string()));
    let e = asset_target_checked(&store, "Users/me".to_string()).unwrap_err();
    assert_eq!((e.status, e.message), (400, "absolute path required"));
    let e = asset_target_checked(&store, "/Users/me/../x".to_string()).unwrap_err();
    assert_eq!((e.status, e.message), (403, "outside configured roots"));
}
