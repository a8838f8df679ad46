//! External programs the library starts: which commands open a terminal in
//! a directory or reveal a path in the platform's file manager, with which
//! arguments, and what is reported when none of them could be started.

use crate::external::string_from_chars;
use crate::paths::{parent_in, parent_path, PathStyle};
use crate::text::{chars_of, has_infix, occurs_at, replace_char, replace_chars};
use vstd::prelude::*;
use vstd::string::StringExecFns;

verus! {

/// The platform the program runs on.
#[derive(Clone, Copy, PartialEq, Eq, Structural, Debug)]
pub enum Platform {
    MacOs,
    Windows,
    Linux,
    Other,
}

/// A program to start, with its arguments.
pub struct Launch {
    pub program: String,
    pub args: Vec<String>,
}

/// What a launch holds, as text.
pub struct LaunchView {
    pub program: Seq<char>,
    pub args: Seq<Seq<char>>,
}

impl View for Launch {
    type V = LaunchView;

    open spec fn view(&self) -> LaunchView {
        LaunchView { program: self.program@, args: self.args@.map_values(|s: String| s@) }
    }
}

/// The text of a list of launches.
pub open spec fn launches_view(v: Seq<Launch>) -> Seq<LaunchView> {
    v.map_values(|l: Launch| l@)
}

/// `path` escaped for a single-quoted shell word: each `'` becomes `'\''`.
pub open spec fn shell_quoted_body(path: Seq<char>) -> Seq<char> {
    replace_char(path, '\'', "'\\''"@)
}

/// The AppleScript that opens Terminal in `path` (reusing window 1 when
/// there is none open, then bringing Terminal to the front).
pub open spec fn terminal_script(path: Seq<char>) -> Seq<char> {
    let p = shell_quoted_body(path);
    "tell application \"Terminal\"\n  if not (exists window 1) then\n    reopen\n    delay 0.5\n    do script \"cd '"@
        + p + "' && clear\" in window 1\n  else\n    do script \"cd '"@ + p
        + "' && clear\"\n  end if\n  activate\nend tell"@
}

/// Both `do script` commands of the Terminal script `cd` into the path as
/// one single-quoted shell word, in which each `'` of the path is written
/// `'\''`: the command that reuses window 1 and the one that opens a new
/// window. A path without `'` appears as it is.
pub proof fn lemma_terminal_script_quotes_path(path: Seq<char>)
    ensures
        has_infix(
            terminal_script(path),
            "do script \"cd '"@ + replace_char(path, '\'', "'\\''"@) + "' && clear\" in window 1"@,
        ),
        has_infix(
            terminal_script(path),
            "do script \"cd '"@ + replace_char(path, '\'', "'\\''"@) + "' && clear\"\n  end if"@,
        ),
        !path.contains('\'') ==> replace_char(path, '\'', "'\\''"@) == path,
{
    let p = replace_char(path, '\'', "'\\''"@);
    let d = "do script \"cd '"@;
    let a1 = "tell application \"Terminal\"\n  if not (exists window 1) then\n    reopen\n    delay 0.5\n    "@;
    let e1 = "' && clear\" in window 1"@;
    let b2 = "\n  else\n    "@;
    let e2 = "' && clear\"\n  end if"@;
    let c2 = "\n  activate\nend tell"@;
    let a = "tell application \"Terminal\"\n  if not (exists window 1) then\n    reopen\n    delay 0.5\n    do script \"cd '"@;
    let b = "' && clear\" in window 1\n  else\n    do script \"cd '"@;
    let c = "' && clear\"\n  end if\n  activate\nend tell"@;
    reveal_strlit("do script \"cd '");
    reveal_strlit("tell application \"Terminal\"\n  if not (exists window 1) then\n    reopen\n    delay 0.5\n    ");
    reveal_strlit("' && clear\" in window 1");
    reveal_strlit("\n  else\n    ");
    reveal_strlit("' && clear\"\n  end if");
    reveal_strlit("\n  activate\nend tell");
    reveal_strlit("tell application \"Terminal\"\n  if not (exists window 1) then\n    reopen\n    delay 0.5\n    do script \"cd '");
    reveal_strlit("' && clear\" in window 1\n  else\n    do script \"cd '");
    reveal_strlit("' && clear\"\n  end if\n  activate\nend tell");
    assert(a =~= a1 + d);
    assert(b =~= e1 + b2 + d);
    assert(c =~= e2 + c2);
    let f1 = d + p + e1;
    let f2 = d + p + e2;
    let s = terminal_script(path);
    assert(s =~= a1 + f1 + b2 + f2 + c2);
    let i1 = a1.len() as int;
    assert(s.subrange(i1, i1 + f1.len()) =~= f1);
    assert(occurs_at(s, f1, i1));
    let i2 = (a1 + f1 + b2).len() as int;
    assert(s.subrange(i2, i2 + f2.len()) =~= f2);
    assert(occurs_at(s, f2, i2));
    if !path.contains('\'') {
        lemma_replace_absent(path, '\'', "'\\''"@);
    }
}

/// Replacing a character that does not occur leaves the text as it is.
proof fn lemma_replace_absent(s: Seq<char>, c: char, r: Seq<char>)
    requires
        !s.contains(c),
    ensures
        replace_char(s, c, r) == s,
    decreases s.len(),
{
    if s.len() > 0 {
        assert(!s.drop_last().contains(c)) by {
            if s.drop_last().contains(c) {
                let k = choose|k: int| 0 <= k < s.drop_last().len() && s.drop_last()[k] == c;
                assert(s[k] == c);
            }
        }
        assert(s.last() != c) by {
            if s.last() == c {
                assert(s[s.len() - 1] == c);
            }
        }
        lemma_replace_absent(s.drop_last(), c, r);
        assert(s.drop_last() + seq![s.last()] =~= s);
    }
}

/// The terminals tried on Linux, in order.
pub open spec fn linux_terminals() -> Seq<Seq<char>> {
    seq!["x-terminal-emulator"@, "gnome-terminal"@, "konsole"@, "xterm"@]
}

/// The commands tried, in order, to open a terminal in `path`; the first
/// that starts wins.
///  - macOS: `osascript -e <script>`
///  - Windows: `wt -d <path>`, then `cmd /C start cmd /K "cd /d <path>"`
///  - Linux: each of the usual terminals with `--working-directory <path>`
///  - elsewhere: nothing
pub open spec fn terminal_launches_spec(platform: Platform, path: Seq<char>) -> Seq<LaunchView> {
    match platform {
        Platform::MacOs => seq![
            LaunchView { program: "osascript"@, args: seq!["-e"@, terminal_script(path)] },
        ],
        Platform::Windows => seq![
            LaunchView { program: "wt"@, args: seq!["-d"@, path] },
            LaunchView {
                program: "cmd"@,
                args: seq!["/C"@, "start"@, "cmd"@, "/K"@, "cd /d "@ + path],
            },
        ],
        Platform::Linux => linux_terminals().map_values(
            |t: Seq<char>| LaunchView { program: t, args: seq!["--working-directory"@, path] },
        ),
        Platform::Other => seq![],
    }
}

fn launch(program: &str, a: String, b: Option<String>) -> (res: Launch)
    ensures
        res@ == (LaunchView {
            program: program@,
            args: match b {
                Some(bs) => seq![a@, bs@],
                None => seq![a@],
            },
        }),
{
    let mut args: Vec<String> = Vec::new();
    args.push(a);
    match b {
        Some(bs) => args.push(bs),
        None => {},
    }
    let res = Launch { program: String::from_str(program), args };
    assert(res@.args =~= match b {
        Some(bs) => seq![a@, bs@],
        None => seq![a@],
    });
    res
}

fn quoted_body(path: &str) -> (res: String)
    ensures
        res@ == shell_quoted_body(path@),
{
    let pc = chars_of(path);
    let rep = chars_of("'\\''");
    let out = replace_chars(pc.as_slice(), '\'', rep.as_slice());
    string_from_chars(out.as_slice())
}

/// Builds the AppleScript that opens Terminal in `path`.
pub fn build_terminal_script(path: &str) -> (res: String)
    ensures
        res@ == terminal_script(path@),
{
    let p = quoted_body(path);
    String::from_str(
        "tell application \"Terminal\"\n  if not (exists window 1) then\n    reopen\n    delay 0.5\n    do script \"cd '",
    ).concat(p.as_str()).concat("' && clear\" in window 1\n  else\n    do script \"cd '").concat(
        p.as_str(),
    ).concat("' && clear\"\n  end if\n  activate\nend tell")
}

/// The commands tried, in order, to open a terminal in `path`.
pub fn terminal_launches(platform: Platform, path: &str) -> (res: Vec<Launch>)
    ensures
        launches_view(res@) == terminal_launches_spec(platform, path@),
{
    let mut v: Vec<Launch> = Vec::new();
    match platform {
        Platform::MacOs => {
            v.push(
                launch("osascript", String::from_str("-e"), Some(build_terminal_script(path))),
            );
        },
        Platform::Windows => {
            v.push(launch("wt", String::from_str("-d"), Some(String::from_str(path))));
            let mut args: Vec<String> = Vec::new();
            args.push(String::from_str("/C"));
            args.push(String::from_str("start"));
            args.push(String::from_str("cmd"));
            args.push(String::from_str("/K"));
            args.push(String::from_str("cd /d ").concat(path));
            let l = Launch { program: String::from_str("cmd"), args };
            assert(l@.args =~= seq!["/C"@, "start"@, "cmd"@, "/K"@, "cd /d "@ + path@]);
            v.push(l);
        },
        Platform::Linux => {
            v.push(
                launch(
                    "x-terminal-emulator",
                    String::from_str("--working-directory"),
                    Some(String::from_str(path)),
                ),
            );
            v.push(
                launch(
                    "gnome-terminal",
                    String::from_str("--working-directory"),
                    Some(String::from_str(path)),
                ),
            );
            v.push(
                launch(
                    "konsole",
                    String::from_str("--working-directory"),
                    Some(String::from_str(path)),
                ),
            );
            v.push(
                launch(
                    "xterm",
                    String::from_str("--working-directory"),
                    Some(String::from_str(path)),
                ),
            );
        },
        Platform::Other => {},
    }
    assert(launches_view(v@) =~= terminal_launches_spec(platform, path@));
    v
}

/// What opening a terminal reports once every command has been tried
/// without one starting: the last failure, or, where nothing was tried,
/// success elsewhere and `no terminal found` on Linux.
pub fn terminal_exhausted(platform: Platform, last_error: Option<String>) -> (res: Result<
    (),
    String,
>)
    ensures
        match last_error {
            Some(e) => res matches Err(r) && r@ == e@,
            None => if platform == Platform::Linux {
                res matches Err(r) && r@ == "no terminal found"@
            } else {
                res is Ok
            },
        },
{
    match last_error {
        Some(e) => Err(e),
        None => {
            if platform == Platform::Linux {
                Err(String::from_str("no terminal found"))
            } else {
                Ok(())
            }
        },
    }
}

/// The command that reveals `path` in the file manager:
///  - macOS: `open -R <path>`
///  - Windows: `explorer /select,<path>`
///  - Linux: `xdg-open` on the parent directory (the path itself when it
///    has no parent)
///  - elsewhere: none
pub open spec fn reveal_launch_spec(platform: Platform, path: Seq<char>) -> Option<LaunchView> {
    match platform {
        Platform::MacOs => Some(LaunchView { program: "open"@, args: seq!["-R"@, path] }),
        Platform::Windows => Some(
            LaunchView { program: "explorer"@, args: seq!["/select,"@ + path] },
        ),
        Platform::Linux => Some(
            LaunchView {
                program: "xdg-open"@,
                args: seq![
                    match parent_in(PathStyle::Unix, path) {
                        Some(p) => p,
                        None => path,
                    },
                ],
            },
        ),
        Platform::Other => None,
    }
}

/// Every terminal command starts in `path`: on Linux each of the four
/// candidates gets `--working-directory <path>`; on Windows Windows
/// Terminal gets `-d <path>` and the `cmd` fallback ends with `cd /d
/// <path>`; on macOS one `osascript` runs the Terminal script for `path`;
/// elsewhere there is none.
pub proof fn lemma_terminals_start_in_path(platform: Platform, path: Seq<char>)
    ensures
        platform == Platform::Linux ==> terminal_launches_spec(platform, path).len() == 4 && forall|
            i: int,
        |
            0 <= i < 4 ==> (#[trigger] terminal_launches_spec(platform, path)[i]).args == seq![
                "--working-directory"@,
                path,
            ],
        platform == Platform::Windows ==> terminal_launches_spec(platform, path).len() == 2
            && terminal_launches_spec(platform, path)[0].program == "wt"@
            && terminal_launches_spec(platform, path)[0].args == seq!["-d"@, path]
            && terminal_launches_spec(platform, path)[1].program == "cmd"@
            && terminal_launches_spec(platform, path)[1].args.last() == "cd /d "@ + path,
        platform == Platform::MacOs ==> terminal_launches_spec(platform, path).len() == 1
            && terminal_launches_spec(platform, path)[0].args.last() == terminal_script(path),
        platform == Platform::Other ==> terminal_launches_spec(platform, path).len() == 0,
{
}

/// Revealing names the path itself on macOS (`open -R <path>`) and on
/// Windows (`explorer /select,<path>`); on Linux it opens the path's
/// parent directory, or the path when it has none.
pub proof fn lemma_reveal_names_path(platform: Platform, path: Seq<char>)
    ensures
        platform == Platform::MacOs ==> reveal_launch_spec(platform, path) == Some(
            LaunchView { program: "open"@, args: seq!["-R"@, path] },
        ),
        platform == Platform::Windows ==> reveal_launch_spec(platform, path) == Some(
            LaunchView { program: "explorer"@, args: seq!["/select,"@ + path] },
        ),
        platform == Platform::Linux && parent_in(PathStyle::Unix, path) is Some
            ==> reveal_launch_spec(platform, path) == Some(
            LaunchView {
                program: "xdg-open"@,
                args: seq![parent_in(PathStyle::Unix, path).unwrap()],
            },
        ),
        platform == Platform::Linux && parent_in(PathStyle::Unix, path) is None
            ==> reveal_launch_spec(platform, path) == Some(
            LaunchView { program: "xdg-open"@, args: seq![path] },
        ),
        platform == Platform::Other ==> reveal_launch_spec(platform, path) is None,
{
}

/// The command that reveals `path` in the file manager, if the platform
/// has one.
pub fn reveal_launch(platform: Platform, path: &str) -> (res: Option<Launch>)
    ensures
        match reveal_launch_spec(platform, path@) {
            Some(l) => res matches Some(r) && r@ == l,
            None => res is None,
        },
{
    match platform {
        Platform::MacOs => Some(launch("open", String::from_str("-R"), Some(String::from_str(path)))),
        Platform::Windows => Some(
            launch("explorer", String::from_str("/select,").concat(path), None),
        ),
        Platform::Linux => {
            let target = match parent_path(PathStyle::Unix, path) {
                Some(p) => p,
                None => String::from_str(path),
            };
            Some(launch("xdg-open", target, None))
        },
        Platform::Other => None,
    }
}

} // verus!
