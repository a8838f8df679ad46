use haystack::paths::PathStyle;
use haystack::config::{AppConfig, ConfigStore, RootConfig};
use haystack::files::{
    create_file_bytes, create_file_target, create_target_free, join_outputs, run_outcome,
    transfer_target, transfer_target_free, vcs_kind, vcs_markers, vcs_program, vcs_steps,
    CreateArgs,
};

fn store() -> ConfigStore {
    let cfg = AppConfig {
        roots: vec![
            RootConfig { name: "A".to_string(), path: "/srv/a".to_string(), url_base: None },
            RootConfig { name: "B".to_string(), path: "/srv/b".to_string(), url_base: None },
        ],
    };
    ConfigStore::new(cfg, "c.json".to_string(), PathStyle::Unix)
}

fn args(dir: &str, name: &str, content: &str, b64: bool) -> CreateArgs {
    CreateArgs { dir: dir.to_string(), name: name.to_string(), content: content.to_string(), base64: b64 }
}

#[test]
fn create_target_checks() {
    let s = store();
    assert_eq!(create_file_target(&s, &args("/srv/a", "", "", false)), Err("missing name".to_string()));
    assert_eq!(create_file_target(&s, &args("srv/a", "x", "", false)), Err("dir must be absolute".to_string()));
    assert_eq!(create_file_target(&s, &args("/srv/a", "n.txt", "", false)), Ok("/srv/a/n.txt".to_string()));
    assert_eq!(create_file_target(&s, &args("/srv/a/", "sub/n.md", "", false)), Ok("/srv/a/sub/n.md".to_string()));
    assert_eq!(
        create_file_target(&s, &args("/srv/a", "/etc/passwd", "", false)),
        Err("path not within any configured root: /etc/passwd".to_string())
    );
    assert_eq!(
        create_file_target(&s, &args("/srv/a", "../b/x", "", false)),
        Ok("/srv/a/../b/x".to_string())
    );
    assert_eq!(
        create_file_target(&s, &args("/srv/a", "../../etc/x", "", false)),
        Err("path not within any configured root: /srv/a/../../etc/x".to_string())
    );
    assert_eq!(create_target_free(false), Ok(()));
    assert_eq!(create_target_free(true), Err("file already exists".to_string()));
}

#[test]
fn create_bytes_plain_and_base64() {
    assert_eq!(create_file_bytes(&args("/", "x", "héllo", false)), Ok("héllo".as_bytes().to_vec()));
    assert_eq!(create_file_bytes(&args("/", "x", "aGVsbG8=", true)), Ok(b"hello".to_vec()));
    assert_eq!(create_file_bytes(&args("/", "x", "", true)), Ok(Vec::new()));
    assert!(create_file_bytes(&args("/", "x", "aGVsbG8", true)).is_err());
    assert!(create_file_bytes(&args("/", "x", "!!!!", true)).is_err());
}

#[test]
fn transfer_targets() {
    let s = store();
    assert_eq!(transfer_target(&s, "/srv/a/doc.txt", "/srv/b"), Ok("/srv/b/doc.txt".to_string()));
    assert_eq!(transfer_target(&s, "/srv/a/dir/", "/srv/b/x"), Ok("/srv/b/x/dir".to_string()));
    assert_eq!(transfer_target(&s, "/", "/srv/b"), Err("invalid src".to_string()));
    assert_eq!(transfer_target(&s, "/srv/a/..", "/srv/b"), Err("invalid src".to_string()));
    assert_eq!(
        transfer_target(&s, "/tmp/doc.txt", "/srv/b"),
        Err("path not within any configured root: /tmp/doc.txt".to_string())
    );
    assert_eq!(
        transfer_target(&s, "/srv/a/doc.txt", "/tmp"),
        Err("path not within any configured root: /tmp/doc.txt".to_string())
    );
    assert_eq!(transfer_target_free(false), Ok(()));
    assert_eq!(transfer_target_free(true), Err("目标位置已存在同名文件".to_string()));
}

#[test]
fn vcs_detection() {
    let s = store();
    assert_eq!(
        vcs_markers(&s, "/srv/a/repo"),
        Ok(("/srv/a/repo/.git".to_string(), "/srv/a/repo/.svn".to_string()))
    );
    assert!(vcs_markers(&s, "/home").is_err());
    assert_eq!(vcs_kind(true, true), "git");
    assert_eq!(vcs_kind(false, true), "svn");
    assert_eq!(vcs_kind(false, false), "");
}

#[test]
fn vcs_update_steps() {
    let strs = |v: Vec<Vec<String>>| -> Vec<Vec<String>> { v };
    assert_eq!(strs(vcs_steps("git", "normal").unwrap()), vec![vec!["pull".to_string(), "--ff-only".to_string()]]);
    assert_eq!(
        vcs_steps("git", "discard").unwrap(),
        vec![
            vec!["fetch".to_string(), "--all".to_string()],
            vec!["reset".to_string(), "--hard".to_string(), "@{u}".to_string()]
        ]
    );
    assert_eq!(vcs_steps("svn", "normal").unwrap(), vec![vec!["update".to_string()]]);
    assert_eq!(
        vcs_steps("svn", "discard").unwrap(),
        vec![vec!["revert".to_string(), "-R".to_string(), ".".to_string()], vec!["update".to_string()]]
    );
    assert_eq!(vcs_steps("hg", "normal"), Err("unknown vcs kind/mode: hg/normal".to_string()));
    assert_eq!(vcs_steps("git", "force"), Err("unknown vcs kind/mode: git/force".to_string()));
    assert_eq!(vcs_program("git"), "git");
    assert_eq!(vcs_program("svn"), "svn");
}

#[test]
fn command_outcomes() {
    assert_eq!(run_outcome("git", "Already up to date.\n", "", true), Ok("Already up to date.".to_string()));
    assert_eq!(run_outcome("git", "out ", " err\n", false), Err("out  err".to_string()));
    assert_eq!(run_outcome("svn", "", "  \n", false), Err("svn 退出码非 0".to_string()));
    assert_eq!(run_outcome("svn", "", "", true), Ok(String::new()));
    let outs = vec!["a".to_string(), String::new(), "b".to_string()];
    assert_eq!(join_outputs(&outs), "a | b");
    assert_eq!(join_outputs(&vec![String::new(), String::new()]), "");
    assert_eq!(join_outputs(&vec![String::new(), "x".to_string()]), "x");
}

#[test]
fn windows_targets() {
    let cfg = AppConfig {
        roots: vec![RootConfig { name: "A".to_string(), path: r"C:\srv\a".to_string(), url_base: None }],
    };
    let s = ConfigStore::new(cfg, "c.json".to_string(), PathStyle::Windows);
    assert_eq!(create_file_target(&s, &args(r"C:\srv\a", "n.txt", "", false)), Ok(r"C:\srv\a\n.txt".to_string()));
    assert_eq!(create_file_target(&s, &args("/srv/a", "n.txt", "", false)), Err("dir must be absolute".to_string()));
    assert_eq!(
        create_file_target(&s, &args(r"C:\srv\a", r"..\..\x", "", false)),
        Err(r"path not within any configured root: C:\srv\a\..\..\x".to_string())
    );
    assert_eq!(
        transfer_target(&s, r"C:\srv\a\doc.txt", r"C:\srv\a\sub"),
        Ok(r"C:\srv\a\sub\doc.txt".to_string())
    );
    assert_eq!(
        vcs_markers(&s, r"C:\srv\a\repo"),
        Ok((r"C:\srv\a\repo\.git".to_string(), r"C:\srv\a\repo\.svn".to_string()))
    );
}

#[test]
fn base64_errors_carry_the_decoder_text() {
    assert_eq!(
        create_file_bytes(&args("/", "x", "@@@@", true)),
        Err("Invalid symbol 64, offset 0.".to_string())
    );
}
